//! A conversation on the screen: which rows it has, and what each card says.

use vstd::prelude::*;
use vstd::string::*;

use chrono::{TimeZone, Timelike};

use crate::client;
use crate::client::{common_ancestor_dir, native_system, open_target};
use crate::paths;
use crate::paths::{file_name, System};
use crate::proto;
use crate::proto::{fmt_size, ChatMessage, ChatMessageView, MessageKind, MessageKindView};
use crate::text;
use crate::text::{cat, cat3, chars_of, same_text, split, string_range, to_decimal};
use crate::ui;
use crate::ui::{
    find_file, find_transfer, transfer_display_name, IncomingReq, IncomingReqView, TransferFile,
    TransferFileView, TransferState, TransferStateView, UiState, UiView,
};
use crate::web::WEB_UPLOAD_DIR;

verus! {

// ---------------------------------------------------------------------------
// Rows
// ---------------------------------------------------------------------------

/// The transfer that a message belongs to.
pub open spec fn transfer_of(m: ChatMessageView) -> Option<Seq<char>> {
    match m.kind {
        MessageKindView::File { name: _, size: _, saved_path: _, transfer_id, file_id: _ } =>
            transfer_id,
        MessageKindView::Text(_) => None,
    }
}

/// Whether two messages are files of one transfer in one direction.
pub open spec fn belong_together(a: ChatMessageView, b: ChatMessageView) -> bool {
    transfer_of(a) is Some && transfer_of(b) == transfer_of(a) && a.outgoing == b.outgoing
}

/// Where the group that begins at `i` ends.
pub open spec fn group_end(s: Seq<ChatMessageView>, i: int, j: int) -> int
    decreases s.len() - j,
{
    if 0 <= i && j < s.len() && belong_together(s[i], s[j]) {
        group_end(s, i, j + 1)
    } else {
        j
    }
}

proof fn lemma_group_end(s: Seq<ChatMessageView>, i: int, j: int)
    requires
        0 <= i < j <= s.len(),
    ensures
        j <= group_end(s, i, j) <= s.len(),
        forall|k: int| j <= k < group_end(s, i, j) ==> belong_together(s[i], #[trigger] s[k]),
        group_end(s, i, j) < s.len() ==> !belong_together(s[i], s[group_end(s, i, j)]),
    decreases s.len() - j,
{
    if j < s.len() && belong_together(s[i], s[j]) {
        lemma_group_end(s, i, j + 1);
        assert forall|k: int| j <= k < group_end(s, i, j) implies belong_together(
            s[i],
            #[trigger] s[k],
        ) by {
            if k > j {
                assert(j + 1 <= k);
            }
        }
    }
}

/// Consecutive files of one transfer in one direction form a group; every
/// other message is a group of its own. A group is where it begins and where
/// the next one begins.
pub open spec fn groups_from(s: Seq<ChatMessageView>, i: int) -> Seq<(int, int)>
    decreases s.len() - i,
{
    if i < 0 || i >= s.len() {
        Seq::empty()
    } else {
        let e = group_end(s, i, i + 1);
        if e <= i || e > s.len() {
            Seq::empty()
        } else {
            seq![(i, e)] + groups_from(s, e)
        }
    }
}

pub open spec fn as_ints(s: Seq<(usize, usize)>) -> Seq<(int, int)> {
    Seq::new(s.len(), |i: int| (s[i].0 as int, s[i].1 as int))
}

/// The groups cover the conversation without gap or overlap, what stands in
/// one group belongs together, and no group could go on.
pub proof fn law_groups_cover(s: Seq<ChatMessageView>, i: int)
    requires
        0 <= i <= s.len(),
    ensures
        ({
            let g = groups_from(s, i);
            &&& g.len() <= s.len() - i
            &&& i < s.len() ==> g.len() > 0 && g[0].0 == i && g.last().1 == s.len()
            &&& i == s.len() ==> g.len() == 0
            &&& forall|k: int|
                0 <= k < g.len() ==> 0 <= i <= (#[trigger] g[k]).0 < g[k].1 <= s.len() && (k + 1
                    < g.len() ==> g[k + 1].0 == g[k].1)
            &&& forall|k: int, m: int|
                0 <= k < g.len() && g[k].0 < m < g[k].1 ==> belong_together(
                    s[(#[trigger] g[k]).0],
                    #[trigger] s[m],
                )
            &&& forall|k: int|
                0 <= k < g.len() && (#[trigger] g[k]).1 < s.len() ==> !belong_together(
                    s[g[k].0],
                    s[g[k].1],
                )
        }),
    decreases s.len() - i,
{
    if i < s.len() {
        let e = group_end(s, i, i + 1);
        lemma_group_end(s, i, i + 1);
        law_groups_cover(s, e);
        let h = groups_from(s, e);
        let g = groups_from(s, i);
        assert(g =~= seq![(i, e)] + h);
        assert forall|k: int| 0 <= k < g.len() implies 0 <= i <= (#[trigger] g[k]).0 < g[k].1
            <= s.len() && (k + 1 < g.len() ==> g[k + 1].0 == g[k].1) by {
            if k > 0 {
                assert(g[k] == h[k - 1]);
                if k + 1 < g.len() {
                    assert(g[k + 1] == h[k]);
                    assert(h[k - 1].1 == h[k].0);
                }
            } else if g.len() > 1 {
                assert(g[1] == h[0]);
            }
        }
        assert forall|k: int, m: int| 0 <= k < g.len() && g[k].0 < m < g[k].1 implies
            belong_together(s[(#[trigger] g[k]).0], #[trigger] s[m]) by {
            if k > 0 {
                assert(g[k] == h[k - 1]);
            }
        }
        assert forall|k: int| 0 <= k < g.len() && (#[trigger] g[k]).1
            < s.len() implies !belong_together(s[g[k].0], s[g[k].1]) by {
            if k > 0 {
                assert(g[k] == h[k - 1]);
            }
        }
        if h.len() > 0 {
            assert(g.last() == h.last());
        }
    }
}

fn same_transfer(a: &ChatMessage, b: &ChatMessage) -> (r: bool)
    ensures
        r == belong_together(a.deep_view(), b.deep_view()),
{
    if a.outgoing != b.outgoing {
        return false;
    }
    match (&a.kind, &b.kind) {
        (
            MessageKind::File {
                name: _,
                size: _,
                saved_path: _,
                transfer_id: Some(x),
                file_id: _,
            },
            MessageKind::File {
                name: _,
                size: _,
                saved_path: _,
                transfer_id: Some(y),
                file_id: _,
            },
        ) => same_text(x.as_str(), y.as_str()),
        _ => false,
    }
}

/// The groups of a conversation.
pub fn group_transfers(messages: &Vec<ChatMessage>) -> (r: Vec<(usize, usize)>)
    ensures
        as_ints(r@) == groups_from(messages.deep_view(), 0),
{
    let ghost s = messages.deep_view();
    let ghost all = groups_from(s, 0);
    let n: usize = messages.len();
    let mut out: Vec<(usize, usize)> = Vec::new();
    let mut i: usize = 0;
    assert(as_ints(out@) + groups_from(s, 0) =~= all);
    while i < n
        invariant
            n == messages@.len(),
            s == messages.deep_view(),
            all == groups_from(s, 0),
            i <= n,
            as_ints(out@) + groups_from(s, i as int) =~= all,
        decreases n - i,
    {
        let mut j: usize = i + 1;
        proof {
            lemma_group_end(s, i as int, i + 1);
        }
        while j < n && same_transfer(&messages[i], &messages[j])
            invariant
                n == messages@.len(),
                s == messages.deep_view(),
                i < j <= n,
                group_end(s, i as int, i + 1) == group_end(s, i as int, j as int),
            decreases n - j,
        {
            assert(s[i as int] == messages@[i as int].deep_view());
            assert(s[j as int] == messages@[j as int].deep_view());
            j = j + 1;
        }
        proof {
            if j < n {
                assert(s[i as int] == messages@[i as int].deep_view());
                assert(s[j as int] == messages@[j as int].deep_view());
            }
            assert(group_end(s, i as int, j as int) == j);
        }
        let ghost before = as_ints(out@);
        out.push((i, j));
        proof {
            assert(as_ints(out@) =~= before.push((i as int, j as int)));
            assert(groups_from(s, i as int) == seq![(i as int, j as int)] + groups_from(
                s,
                j as int,
            ));
        }
        i = j;
    }
    assert(groups_from(s, i as int) =~= Seq::<(int, int)>::empty());
    assert(as_ints(out@) =~= all);
    out
}

pub fn group_count(messages: &Vec<ChatMessage>) -> (r: usize)
    ensures
        r == groups_from(messages.deep_view(), 0).len(),
{
    let g = group_transfers(messages);
    assert(as_ints(g@).len() == g@.len());
    g.len()
}

/// The requests of one device that wait, in the order they came.
pub open spec fn requests_of(s: Seq<IncomingReqView>, peer: Seq<char>) -> Seq<IncomingReqView>
    decreases s.len(),
{
    if s.len() == 0 {
        Seq::empty()
    } else {
        let head = requests_of(s.drop_last(), peer);
        if s.last().peer.info.id == peer {
            head.push(s.last())
        } else {
            head
        }
    }
}

pub fn peer_requests(s: &Vec<IncomingReq>, peer: &str) -> (r: Vec<IncomingReq>)
    ensures
        r.deep_view() == requests_of(s.deep_view(), peer@),
        r@.len() <= s@.len(),
{
    let ghost all = s.deep_view();
    let mut out: Vec<IncomingReq> = Vec::new();
    let mut i: usize = 0;
    assert(all.take(0) =~= Seq::<IncomingReqView>::empty());
    assert(out.deep_view() =~= Seq::<IncomingReqView>::empty());
    while i < s.len()
        invariant
            all == s.deep_view(),
            i <= s@.len(),
            out@.len() <= i,
            out.deep_view() == requests_of(all.take(i as int), peer@),
        decreases s@.len() - i,
    {
        proof {
            assert(all[i as int] == s@[i as int].deep_view());
            assert(all.take(i + 1).drop_last() =~= all.take(i as int));
            assert(all.take(i + 1).last() == all[i as int]);
        }
        if same_text(s[i].peer.info.id.as_str(), peer) {
            let ghost before = out.deep_view();
            let q = s[i].clone();
            out.push(q);
            assert(out.deep_view() =~= before.push(all[i as int]));
        }
        i = i + 1;
    }
    assert(all.take(i as int) =~= all);
    out
}

/// How many rows a conversation has: its groups, and the requests that wait.
pub open spec fn row_count(v: UiView, peer: Seq<char>) -> nat {
    groups_from(ui::chat_of(v, peer), 0).len() + requests_of(v.incoming, peer).len()
}

/// What stands in a row.
#[derive(Debug, PartialEq, Eq)]
pub enum ChatRow {
    /// The messages from the first to before the second.
    Messages(usize, usize),
    /// The request with this place among those of the device.
    Request(usize),
    Nothing,
}

impl UiState {
    fn groups(&self, peer: &str) -> (r: Vec<(usize, usize)>)
        requires
            self.wf(),
        ensures
            as_ints(r@) == groups_from(ui::chat_of(self@, peer@), 0),
            r@.len() == groups_from(ui::chat_of(self@, peer@), 0).len(),
    {
        match self.chats.get(peer) {
            Some(msgs) => {
                let g = group_transfers(msgs);
                assert(as_ints(g@).len() == g@.len());
                g
            },
            None => {
                let g: Vec<(usize, usize)> = Vec::new();
                assert(as_ints(g@) =~= groups_from(ui::chat_of(self@, peer@), 0));
                g
            },
        }
    }

    /// How many rows a conversation has, where that can be counted.
    pub fn chat_row_count(&self, peer: &str) -> (r: Option<usize>)
        requires
            self.wf(),
        ensures
            match r {
                Some(n) => n == row_count(self@, peer@),
                None => row_count(self@, peer@) > usize::MAX,
            },
    {
        let g = self.groups(peer);
        let q = peer_requests(&self.incoming, peer);
        assert(q.deep_view().len() == q@.len());
        g.len().checked_add(q.len())
    }

    /// What stands in row `ix` of a conversation.
    pub fn chat_row(&self, peer: &str, ix: usize) -> (r: ChatRow)
        requires
            self.wf(),
        ensures
            ({
                let g = groups_from(ui::chat_of(self@, peer@), 0);
                let q = requests_of(self@.incoming, peer@);
                if ix < g.len() {
                    r matches ChatRow::Messages(a, b) && (a as int, b as int) == g[ix as int]
                } else if ix - g.len() < q.len() {
                    r matches ChatRow::Request(k) && k == ix - g.len()
                } else {
                    r is Nothing
                }
            }),
    {
        let g = self.groups(peer);
        let q = peer_requests(&self.incoming, peer);
        assert(q.deep_view().len() == q@.len());
        if ix < g.len() {
            assert(as_ints(g@)[ix as int] == (g@[ix as int].0 as int, g@[ix as int].1 as int));
            ChatRow::Messages(g[ix].0, g[ix].1)
        } else if ix - g.len() < q.len() {
            ChatRow::Request(ix - g.len())
        } else {
            ChatRow::Nothing
        }
    }
}

/// How the list of rows is brought in line: the rows that came are added, and
/// where some went it begins anew.
#[derive(Debug, PartialEq, Eq)]
pub enum ScrollStep {
    Keep,
    Append(usize),
    Reset(usize),
}

pub fn scroll_step(known: usize, count: usize) -> (r: ScrollStep)
    ensures
        r == (if count == known {
            ScrollStep::Keep
        } else if count > known {
            ScrollStep::Append((count - known) as usize)
        } else {
            ScrollStep::Reset(count)
        }),
{
    if count == known {
        ScrollStep::Keep
    } else if count > known {
        ScrollStep::Append(count - known)
    } else {
        ScrollStep::Reset(count)
    }
}

// ---------------------------------------------------------------------------
// Texts
// ---------------------------------------------------------------------------

/// A line without the carriage return at its end.
pub open spec fn without_return(s: Seq<char>) -> Seq<char> {
    if s.len() > 0 && s.last() == '\r' {
        s.drop_last()
    } else {
        s
    }
}

/// The lines of a text; the end of the last line may be missing.
pub open spec fn lines_of(s: Seq<char>) -> Seq<Seq<char>> {
    let ps = text::pieces(s, '\n', '\n');
    let full = Seq::new((ps.len() - 1) as nat, |i: int| without_return(ps[i]));
    if ps.last().len() == 0 {
        full
    } else {
        full.push(ps.last())
    }
}

pub fn message_lines(s: &str) -> (r: Vec<String>)
    ensures
        r.deep_view() == lines_of(s@),
{
    let v = chars_of(s);
    assert(v@.skip(0) =~= v@);
    let ps = split(&v, 0, '\n', '\n');
    let ghost pv = ps.deep_view();
    let ghost full = Seq::new((pv.len() - 1) as nat, |i: int| without_return(pv[i]));
    let last: usize = ps.len() - 1;
    let mut out: Vec<String> = Vec::new();
    let mut i: usize = 0;
    while i < last
        invariant
            pv == ps.deep_view(),
            full == Seq::new((pv.len() - 1) as nat, |i: int| without_return(pv[i])),
            last == ps@.len() - 1,
            i <= last,
            out.deep_view() =~= full.take(i as int),
        decreases last - i,
    {
        let c = chars_of(ps[i].as_str());
        assert(pv[i as int] == c@);
        let ghost before = out.deep_view();
        let line = if c.len() > 0 && c[c.len() - 1] == '\r' {
            assert(c@.subrange(0, c@.len() - 1) =~= c@.drop_last());
            string_range(&c, 0, c.len() - 1)
        } else {
            ps[i].clone()
        };
        out.push(line);
        assert(out.deep_view() =~= before.push(full[i as int]));
        i = i + 1;
    }
    assert(out.deep_view() =~= full);
    let c = chars_of(ps[last].as_str());
    assert(pv[last as int] == c@);
    assert(pv.last() == pv[last as int]);
    if c.len() > 0 {
        let ghost before = out.deep_view();
        out.push(ps[last].clone());
        assert(out.deep_view() =~= before.push(pv.last()));
    }
    out
}

/// Two digits.
pub open spec fn two_digits(n: nat) -> Seq<char> {
    seq![text::digit_char((n / 10 % 10) as int), text::digit_char((n % 10) as int)]
}

/// A time of day.
pub open spec fn time_text(t: Option<(u32, u32)>) -> Seq<char> {
    match t {
        Some((h, m)) => two_digits(h as nat) + ":"@ + two_digits(m as nat),
        None => Seq::empty(),
    }
}

fn push_two(out: &mut String, n: u32)
    ensures
        final(out)@ == old(out)@ + two_digits(n as nat),
{
    let ghost before = out@;
    let hi: u8 = (n / 10 % 10) as u8;
    let lo: u8 = (n % 10) as u8;
    let a: char = (hi + 48) as char;
    let b: char = (lo + 48) as char;
    out.push(a);
    out.push(b);
    assert(a == text::digit_char((n as nat / 10 % 10) as int));
    assert(b == text::digit_char((n as nat % 10) as int));
    assert(out@ =~= before + two_digits(n as nat));
}

pub fn clock_text(t: Option<(u32, u32)>) -> (r: String)
    ensures
        r@ == time_text(t),
{
    let mut out = String::new();
    match t {
        Some((h, m)) => {
            push_two(&mut out, h);
            out.append(":");
            push_two(&mut out, m);
            assert(out@ =~= time_text(t));
        },
        None => {},
    }
    out
}

/// The last millisecond of the year 9999.
pub const LAST_FOUR_DIGIT_YEAR_MS: i64 = 253_402_300_799_999;

/// Calls `chrono::Local.timestamp_millis_opt` and hands out the hour and the
/// minute of the result. Claimed: the hour is below 24 and the minute below 60,
/// and there is a result for every time from 1970 to the year 9999. Which hour
/// it is depends on the time zone of the machine and is not stated.
#[verifier::external_body]
fn local_time(ms: i64) -> (r: Option<(u32, u32)>)
    ensures
        match r {
            Some((h, m)) => h < 24 && m < 60,
            None => !(0 <= ms <= LAST_FOUR_DIGIT_YEAR_MS),
        },
{
    match chrono::Local.timestamp_millis_opt(ms).single() {
        Some(t) => Some((t.hour(), t.minute())),
        None => None,
    }
}

/// A moment as a time of day where this device is.
pub fn fmt_time(ms: i64) -> (r: String)
    ensures
        exists|t: Option<(u32, u32)>|
            r@ == #[trigger] time_text(t) && match t {
                Some((h, m)) => h < 24 && m < 60,
                None => !(0 <= ms <= LAST_FOUR_DIGIT_YEAR_MS),
            },
{
    clock_text(local_time(ms))
}

/// A speed for people, in whole bytes per second; nothing where nothing moves.
pub open spec fn speed_text(speed: Option<u64>) -> Seq<char> {
    match speed {
        Some(n) => proto::size_text(n as nat) + "/s"@,
        None => Seq::empty(),
    }
}

pub fn fmt_speed(speed: Option<u64>) -> (r: String)
    ensures
        r@ == speed_text(speed),
{
    match speed {
        Some(n) => {
            let s = fmt_size(n);
            cat(s.as_str(), "/s")
        },
        None => String::new(),
    }
}

/// A speed as it follows other things in a line.
pub open spec fn speed_tail_text(speed: Option<u64>) -> Seq<char> {
    match speed {
        Some(_) => " · "@ + speed_text(speed),
        None => Seq::empty(),
    }
}

pub fn speed_tail(speed: Option<u64>) -> (r: String)
    ensures
        r@ == speed_tail_text(speed),
{
    match speed {
        Some(_) => {
            let s = fmt_speed(speed);
            cat(" · ", s.as_str())
        },
        None => String::new(),
    }
}

// ---------------------------------------------------------------------------
// Cards
// ---------------------------------------------------------------------------

/// How the transfer on a card stands.
#[derive(Debug, PartialEq, Eq)]
pub enum CardState {
    Failed(String),
    /// `detail` follows the percentage, and the speed by `rate` follows it; without
    /// anything sent it stands alone.
    Running { sent: u64, total: u64, detail: String, rate: Option<(u128, u64)> },
    /// `open` is what the file manager shows.
    Done { label: String, open: Option<String> },
}

/// [`CardState`] as the contracts speak of it.
#[verifier::ext_equal]
pub enum CardStateView {
    Failed(Seq<char>),
    Running { sent: u64, total: u64, detail: Seq<char>, rate: Option<(u128, u64)> },
    Done { label: Seq<char>, open: Option<Seq<char>> },
}

impl DeepView for CardState {
    type V = CardStateView;

    open spec fn deep_view(&self) -> CardStateView {
        match self {
            CardState::Failed(a) => CardStateView::Failed(a.deep_view()),
            CardState::Running { sent, total, detail, rate } => CardStateView::Running {
                sent: sent.deep_view(),
                total: total.deep_view(),
                detail: detail.deep_view(),
                rate: rate.deep_view(),
            },
            CardState::Done { label, open } => CardStateView::Done { label: label.deep_view(), open: open.deep_view() },
        }
    }
}

/// The card of files that belong together.
#[derive(Debug, PartialEq, Eq)]
pub struct BatchCard {
    pub title: String,
    pub subtitle: String,
    pub state: CardState,
    /// Whether this device sent them.
    pub mine: bool,
    /// The messages that the card stands for.
    pub ids: Vec<i64>,
}

/// [`BatchCard`] as the contracts speak of it.
#[verifier::ext_equal]
pub struct BatchCardView {
    pub title: Seq<char>,
    pub subtitle: Seq<char>,
    pub state: CardStateView,
    pub mine: bool,
    pub ids: Seq<i64>,
}

impl DeepView for BatchCard {
    type V = BatchCardView;

    open spec fn deep_view(&self) -> BatchCardView {
        BatchCardView {
            title: self.title.deep_view(),
            subtitle: self.subtitle.deep_view(),
            state: self.state.deep_view(),
            mine: self.mine.deep_view(),
            ids: self.ids.deep_view(),
        }
    }
}

/// The card of one file.
#[derive(Debug, PartialEq, Eq)]
pub struct FileCard {
    /// Tells cards apart.
    pub key: String,
    pub name: String,
    pub size_text: String,
    pub state: CardState,
}

/// [`FileCard`] as the contracts speak of it.
#[verifier::ext_equal]
pub struct FileCardView {
    pub key: Seq<char>,
    pub name: Seq<char>,
    pub size_text: Seq<char>,
    pub state: CardStateView,
}

impl DeepView for FileCard {
    type V = FileCardView;

    open spec fn deep_view(&self) -> FileCardView {
        FileCardView {
            key: self.key.deep_view(),
            name: self.name.deep_view(),
            size_text: self.size_text.deep_view(),
            state: self.state.deep_view(),
        }
    }
}

/// A sum of sizes as far as it can be shown.
pub open spec fn shown_bytes(n: nat) -> u64 {
    if n > u64::MAX {
        u64::MAX
    } else {
        n as u64
    }
}

fn clip(n: u128) -> (r: u64)
    ensures
        r == shown_bytes(n as nat),
{
    if n > 0xffff_ffff_ffff_ffff {
        0xffff_ffff_ffff_ffff
    } else {
        n as u64
    }
}

pub open spec fn size_of(m: ChatMessageView) -> u64 {
    match m.kind {
        MessageKindView::File { name: _, size, saved_path: _, transfer_id: _, file_id: _ } => size,
        MessageKindView::Text(_) => 0,
    }
}

pub open spec fn sizes_of(s: Seq<ChatMessageView>) -> nat
    decreases s.len(),
{
    if s.len() == 0 {
        0
    } else {
        sizes_of(s.drop_last()) + size_of(s.last()) as nat
    }
}

pub open spec fn saved_of(m: ChatMessageView) -> Option<Seq<char>> {
    match m.kind {
        MessageKindView::File { name: _, size: _, saved_path, transfer_id: _, file_id: _ } =>
            saved_path,
        MessageKindView::Text(_) => None,
    }
}

/// Where the files of messages are, as far as that is known.
pub open spec fn saved_paths(s: Seq<ChatMessageView>) -> Seq<Seq<char>>
    decreases s.len(),
{
    if s.len() == 0 {
        Seq::empty()
    } else {
        let head = saved_paths(s.drop_last());
        match saved_of(s.last()) {
            Some(p) => head.push(p),
            None => head,
        }
    }
}

pub open spec fn done_count(s: Seq<TransferFileView>) -> nat
    decreases s.len(),
{
    if s.len() == 0 {
        0
    } else {
        done_count(s.drop_last()) + if s.last().done {
            1nat
        } else {
            0nat
        }
    }
}

/// Where a file is: where it was saved, else where it came from.
pub open spec fn known_path(f: TransferFileView) -> Option<Seq<char>> {
    match f.saved_path {
        Some(p) => Some(p),
        None => f.source,
    }
}

/// The first file of which is known where it is.
pub open spec fn first_known(s: Seq<TransferFileView>) -> Option<TransferFileView>
    decreases s.len(),
{
    if s.len() == 0 {
        None
    } else if known_path(s[0]) is Some {
        Some(s[0])
    } else {
        first_known(s.skip(1))
    }
}

/// What the file manager shows of a file.
pub open spec fn file_target(f: TransferFileView, sys: System) -> Option<Seq<char>> {
    match known_path(f) {
        Some(p) => client::target_text(f.meta.rel_path, p, sys),
        None => None,
    }
}

/// What the file manager shows of a transfer, or of one of its files.
pub open spec fn transfer_target(
    s: Seq<TransferStateView>,
    transfer_id: Option<Seq<char>>,
    file_id: Option<Seq<char>>,
    sys: System,
) -> Option<Seq<char>> {
    match transfer_id {
        None => None,
        Some(tid) => match ui::transfer_index(s, tid) {
            None => None,
            Some(i) => match file_id {
                Some(fid) => match ui::file_index(s[i].files, fid) {
                    Some(k) => file_target(s[i].files[k], sys),
                    None => None,
                },
                None => match first_known(s[i].files) {
                    Some(f) => file_target(f, sys),
                    None => None,
                },
            },
        },
    }
}

fn make_file_target(f: &TransferFile, sys: System) -> (r: Option<String>)
    ensures
        r.deep_view() == file_target(f.deep_view(), sys),
{
    let saved = match &f.saved_path {
        Some(p) => Some(p.as_str()),
        None => None,
    };
    let source = match &f.source {
        Some(p) => Some(p.as_str()),
        None => None,
    };
    open_target(f.meta.rel_path.as_str(), saved, source, sys)
}

fn find_known(s: &Vec<TransferFile>) -> (r: Option<usize>)
    ensures
        match r {
            Some(i) => i < s@.len() && first_known(s.deep_view()) == Some(s.deep_view()[i as int]),
            None => first_known(s.deep_view()) is None,
        },
{
    let ghost all = s.deep_view();
    let mut i: usize = 0;
    assert(all.skip(0) =~= all);
    while i < s.len()
        invariant
            all == s.deep_view(),
            i <= s@.len(),
            first_known(all) == first_known(all.skip(i as int)),
        decreases s@.len() - i,
    {
        assert(all[i as int] == s@[i as int].deep_view());
        assert(all.skip(i as int)[0] == all[i as int]);
        assert(all.skip(i as int).skip(1) =~= all.skip(i + 1));
        let known = match (&s[i].saved_path, &s[i].source) {
            (None, None) => false,
            _ => true,
        };
        if known {
            return Some(i);
        }
        i = i + 1;
    }
    None
}

pub fn transfer_open_target(
    transfers: &Vec<TransferState>,
    transfer_id: Option<&str>,
    file_id: Option<&str>,
    sys: System,
) -> (r: Option<String>)
    ensures
        r.deep_view() == transfer_target(
            transfers.deep_view(),
            (match transfer_id {
                Some(t) => Some(t@),
                None => None,
            }),
            (match file_id {
                Some(f) => Some(f@),
                None => None,
            }),
            sys,
        ),
{
    let tid = match transfer_id {
        Some(t) => t,
        None => {
            return None;
        },
    };
    match find_transfer(transfers, tid) {
        None => None,
        Some(i) => {
            let t = &transfers[i];
            assert(transfers.deep_view()[i as int] == t.deep_view());
            match file_id {
                Some(fid) => match find_file(&t.files, fid) {
                    Some(k) => {
                        assert(t.files.deep_view()[k as int] == t.files@[k as int].deep_view());
                        make_file_target(&t.files[k], sys)
                    },
                    None => None,
                },
                None => match find_known(&t.files) {
                    Some(k) => {
                        assert(t.files.deep_view()[k as int] == t.files@[k as int].deep_view());
                        make_file_target(&t.files[k], sys)
                    },
                    None => None,
                },
            }
        },
    }
}

/// The title of files whose transfer is no longer remembered: the folder that
/// they lie in, unless that is the one for uploads.
pub open spec fn history_title(hist: Seq<Seq<char>>, count: nat, sys: System) -> Seq<char> {
    let plain = text::decimal(count) + " 个文件"@;
    match client::common_dir(hist, sys) {
        Some(d) => match paths::name_of(paths::components(d, client::native(d, sys))) {
            Some(n) => if n != WEB_UPLOAD_DIR@ {
                n
            } else {
                plain
            },
            None => plain,
        },
        None => plain,
    }
}

pub open spec fn or_else(a: Option<Seq<char>>, b: Option<Seq<char>>) -> Option<Seq<char>> {
    match a {
        Some(x) => Some(x),
        None => b,
    }
}

pub open spec fn first_of(s: Seq<Seq<char>>) -> Option<Seq<char>> {
    if s.len() > 0 {
        Some(s[0])
    } else {
        None
    }
}

/// What stands behind the percentage of a transfer that runs.
pub open spec fn running_detail(sent: u64, total: u64) -> Seq<char> {
    if sent == 0 {
        "等待对方接收"@
    } else {
        " · "@ + proto::size_text(sent as nat) + " / "@ + proto::size_text(total as nat)
    }
}

fn make_running(sent: u64, total: u64, rate: Option<(u128, u64)>) -> (r: CardState)
    ensures
        r.deep_view() == (CardStateView::Running {
            sent,
            total,
            detail: running_detail(sent, total),
            rate,
        }),
{
    if sent == 0 {
        return CardState::Running { sent, total, detail: "等待对方接收".to_owned(), rate };
    }
    let a = fmt_size(sent);
    let b = fmt_size(total);
    let mut detail = cat(" · ", a.as_str());
    detail.append(" / ");
    detail.append(b.as_str());
    CardState::Running { sent, total, detail, rate }
}

/// The card of a group of messages. A transfer that is no longer remembered
/// counts as complete.
pub open spec fn batch_card(v: UiView, msgs: Seq<ChatMessageView>) -> BatchCardView {
    let tid = match transfer_of(msgs[0]) {
        Some(t) => t,
        None => Seq::empty(),
    };
    let count = msgs.len();
    let total = shown_bytes(sizes_of(msgs));
    let hist = saved_paths(msgs);
    let mine = msgs[0].outgoing;
    let ids = Seq::new(msgs.len(), |i: int| msgs[i].id);
    match ui::transfer_index(v.transfers, tid) {
        Some(i) => {
            let t = v.transfers[i];
            let sent = shown_bytes(ui::moved_of(t.files));
            BatchCardView {
                title: client::batch_name(ui::rels_of(t.files)),
                subtitle: proto::size_text(total as nat) + " · "@ + text::decimal(
                    done_count(t.files),
                ) + "/"@ + text::decimal(count) + " 已完成"@,
                state: match t.error {
                    Some(e) => CardStateView::Failed(e),
                    None => if !ui::all_done_of(t.files) {
                        CardStateView::Running {
                            sent,
                            total,
                            detail: running_detail(sent, total),
                            rate: t.rate,
                        }
                    } else {
                        CardStateView::Done {
                            label: if mine {
                                "已发送"@
                            } else {
                                "已保存"@
                            },
                            open: or_else(
                                transfer_target(v.transfers, Some(tid), None, v.system),
                                or_else(
                                    match first_known(t.files) {
                                        Some(f) => known_path(f),
                                        None => None,
                                    },
                                    or_else(client::common_dir(hist, v.system), first_of(hist)),
                                ),
                            ),
                        }
                    },
                },
                mine,
                ids,
            }
        },
        None => BatchCardView {
            title: history_title(hist, count, v.system),
            subtitle: proto::size_text(total as nat) + " · "@ + text::decimal(count) + "/"@
                + text::decimal(count) + " 已完成"@,
            state: CardStateView::Done {
                label: if mine {
                    "已发送"@
                } else {
                    "已接收"@
                },
                open: or_else(client::common_dir(hist, v.system), first_of(hist)),
            },
            mine,
            ids,
        },
    }
}

fn sum_sizes(msgs: &Vec<ChatMessage>) -> (r: u128)
    ensures
        r == sizes_of(msgs.deep_view()),
{
    let ghost all = msgs.deep_view();
    let n: usize = msgs.len();
    let mut sum: u128 = 0;
    let mut i: usize = 0;
    assert(all.take(0) =~= Seq::<ChatMessageView>::empty());
    while i < n
        invariant
            n == msgs@.len(),
            all == msgs.deep_view(),
            i <= n,
            sum == sizes_of(all.take(i as int)),
            sum <= i * 0xffff_ffff_ffff_ffff,
        decreases n - i,
    {
        proof {
            assert(all[i as int] == msgs@[i as int].deep_view());
            assert(all.take(i + 1).drop_last() =~= all.take(i as int));
            assert(all.take(i + 1).last() == all[i as int]);
            assert(i * 0xffff_ffff_ffff_ffff + 0xffff_ffff_ffff_ffff == (i + 1)
                * 0xffff_ffff_ffff_ffff) by (nonlinear_arith);
            assert((i + 1) * 0xffff_ffff_ffff_ffff
                <= 0x1_0000_0000_0000_0000 * 0xffff_ffff_ffff_ffff) by (nonlinear_arith)
                requires
                    i < n,
                    n <= 0xffff_ffff_ffff_ffff,
            ;
        }
        let size: u64 = match &msgs[i].kind {
            MessageKind::File { name: _, size, saved_path: _, transfer_id: _, file_id: _ } => *size,
            MessageKind::Text(_) => 0,
        };
        sum = sum + size as u128;
        i = i + 1;
    }
    assert(all.take(i as int) =~= all);
    sum
}

fn collect_saved(msgs: &Vec<ChatMessage>) -> (r: Vec<String>)
    ensures
        r.deep_view() == saved_paths(msgs.deep_view()),
{
    let ghost all = msgs.deep_view();
    let mut out: Vec<String> = Vec::new();
    let mut i: usize = 0;
    assert(all.take(0) =~= Seq::<ChatMessageView>::empty());
    assert(out.deep_view() =~= Seq::<Seq<char>>::empty());
    while i < msgs.len()
        invariant
            all == msgs.deep_view(),
            i <= msgs@.len(),
            out.deep_view() == saved_paths(all.take(i as int)),
        decreases msgs@.len() - i,
    {
        proof {
            assert(all[i as int] == msgs@[i as int].deep_view());
            assert(all.take(i + 1).drop_last() =~= all.take(i as int));
            assert(all.take(i + 1).last() == all[i as int]);
        }
        match &msgs[i].kind {
            MessageKind::File { name: _, size: _, saved_path: Some(p), transfer_id: _, file_id: _ } => {
                let ghost before = out.deep_view();
                out.push(p.clone());
                assert(out.deep_view() =~= before.push(p@));
            },
            _ => {},
        }
        i = i + 1;
    }
    assert(all.take(i as int) =~= all);
    out
}

fn count_done(files: &Vec<TransferFile>) -> (r: usize)
    ensures
        r == done_count(files.deep_view()),
{
    let ghost all = files.deep_view();
    let mut n: usize = 0;
    let mut i: usize = 0;
    assert(all.take(0) =~= Seq::<TransferFileView>::empty());
    while i < files.len()
        invariant
            all == files.deep_view(),
            i <= files@.len(),
            n <= i,
            n == done_count(all.take(i as int)),
        decreases files@.len() - i,
    {
        proof {
            assert(all[i as int] == files@[i as int].deep_view());
            assert(all.take(i + 1).drop_last() =~= all.take(i as int));
            assert(all.take(i + 1).last() == all[i as int]);
        }
        if files[i].done {
            n = n + 1;
        }
        i = i + 1;
    }
    assert(all.take(i as int) =~= all);
    n
}

fn collect_ids(msgs: &Vec<ChatMessage>) -> (r: Vec<i64>)
    ensures
        r.deep_view() == Seq::new(msgs@.len(), |i: int| msgs.deep_view()[i].id),
{
    let ghost all = msgs.deep_view();
    let ghost wanted = Seq::new(msgs@.len(), |i: int| all[i].id);
    let mut out: Vec<i64> = Vec::new();
    let mut i: usize = 0;
    while i < msgs.len()
        invariant
            all == msgs.deep_view(),
            wanted == Seq::new(msgs@.len(), |i: int| all[i].id),
            i <= msgs@.len(),
            out.deep_view() =~= wanted.take(i as int),
        decreases msgs@.len() - i,
    {
        assert(all[i as int] == msgs@[i as int].deep_view());
        let ghost before = out.deep_view();
        out.push(msgs[i].id);
        assert(out.deep_view() =~= before.push(wanted[i as int]));
        i = i + 1;
    }
    assert(out.deep_view() =~= wanted);
    out
}

fn make_history_title(hist: &Vec<String>, count: usize, sys: System) -> (r: String)
    ensures
        r@ == history_title(hist.deep_view(), count as nat, sys),
{
    let ghost texts = Seq::new(hist@.len(), |i: int| hist@[i]@);
    assert(texts =~= hist.deep_view());
    let found = match common_ancestor_dir(hist.as_slice(), sys) {
        Some(d) => match file_name(d.as_str(), native_system(d.as_str(), sys)) {
            Some(n) => if !same_text(n.as_str(), WEB_UPLOAD_DIR) {
                Some(n)
            } else {
                None
            },
            None => None,
        },
        None => None,
    };
    match found {
        Some(n) => n,
        None => {
            let d = to_decimal(count as u64);
            cat(d.as_str(), " 个文件")
        },
    }
}

fn history_target(hist: &Vec<String>, sys: System) -> (r: Option<String>)
    ensures
        r.deep_view() == or_else(
            client::common_dir(hist.deep_view(), sys),
            first_of(hist.deep_view()),
        ),
{
    let ghost texts = Seq::new(hist@.len(), |i: int| hist@[i]@);
    assert(texts =~= hist.deep_view());
    match common_ancestor_dir(hist.as_slice(), sys) {
        Some(d) => Some(d),
        None => if hist.len() > 0 {
            assert(hist.deep_view()[0] == hist@[0]@);
            Some(hist[0].clone())
        } else {
            None
        },
    }
}

fn make_subtitle(total: u64, done: usize, count: usize) -> (r: String)
    ensures
        r@ == proto::size_text(total as nat) + " · "@ + text::decimal(done as nat) + "/"@
            + text::decimal(count as nat) + " 已完成"@,
{
    let size = fmt_size(total);
    let a = to_decimal(done as u64);
    let b = to_decimal(count as u64);
    let mut out = cat3(size.as_str(), " · ", a.as_str());
    out.append("/");
    out.append(b.as_str());
    out.append(" 已完成");
    out
}

impl UiState {
    /// The card of a group of messages.
    pub fn make_batch_card(&self, msgs: &Vec<ChatMessage>) -> (r: BatchCard)
        requires
            msgs@.len() > 0,
        ensures
            r.deep_view() == batch_card(self@, msgs.deep_view()),
    {
        let ghost mv = msgs.deep_view();
        assert(mv[0] == msgs@[0].deep_view());
        let count = msgs.len();
        let total = clip(sum_sizes(msgs));
        let hist = collect_saved(msgs);
        let mine = msgs[0].outgoing;
        let ids = collect_ids(msgs);
        let tid = match &msgs[0].kind {
            MessageKind::File { name: _, size: _, saved_path: _, transfer_id: Some(t), file_id: _ } =>
                t.clone(),
            _ => String::new(),
        };
        match find_transfer(&self.transfers, tid.as_str()) {
            Some(i) => {
                let t = &self.transfers[i];
                assert(self@.transfers[i as int] == t.deep_view());
                let sent = clip(t.transferred_bytes());
                let title = transfer_display_name(&t.files);
                let subtitle = make_subtitle(total, count_done(&t.files), count);
                let state = match &t.error {
                    Some(e) => CardState::Failed(e.clone()),
                    None => if !t.all_done() {
                        make_running(sent, total, t.rate)
                    } else {
                        let label = if mine {
                            "已发送"
                        } else {
                            "已保存"
                        };
                        let open = match transfer_open_target(
                            &self.transfers,
                            Some(tid.as_str()),
                            None,
                            self.system,
                        ) {
                            Some(p) => Some(p),
                            None => match find_known(&t.files) {
                                Some(k) => {
                                    assert(t.files.deep_view()[k as int]
                                        == t.files@[k as int].deep_view());
                                    match &t.files[k].saved_path {
                                        Some(p) => Some(p.clone()),
                                        None => match &t.files[k].source {
                                            Some(p) => Some(p.clone()),
                                            None => history_target(&hist, self.system),
                                        },
                                    }
                                },
                                None => history_target(&hist, self.system),
                            },
                        };
                        CardState::Done { label: label.to_owned(), open }
                    },
                };
                BatchCard { title, subtitle, state, mine, ids }
            },
            None => {
                let label = if mine {
                    "已发送"
                } else {
                    "已接收"
                };
                BatchCard {
                    title: make_history_title(&hist, count, self.system),
                    subtitle: make_subtitle(total, count, count),
                    state: CardState::Done {
                        label: label.to_owned(),
                        open: history_target(&hist, self.system),
                    },
                    mine,
                    ids,
                }
            },
        }
    }
}

/// The transfer and the file that a card is about, where they are remembered.
pub open spec fn card_transfer(
    v: UiView,
    transfer_id: Option<Seq<char>>,
    file_id: Option<Seq<char>>,
) -> Option<TransferStateView> {
    if transfer_id is Some && file_id is Some {
        match ui::transfer_index(v.transfers, transfer_id->Some_0) {
            Some(i) => Some(v.transfers[i]),
            None => None,
        }
    } else {
        None
    }
}

pub open spec fn card_file(t: Option<TransferStateView>, file_id: Option<Seq<char>>) -> Option<
    TransferFileView,
> {
    match t {
        None => None,
        Some(t) => if file_id is Some {
            match ui::file_index(t.files, file_id->Some_0) {
                Some(k) => Some(t.files[k]),
                None => None,
            }
        } else {
            None
        },
    }
}

/// How the file on a card stands.
pub open spec fn file_state(
    v: UiView,
    saved_path: Option<Seq<char>>,
    transfer_id: Option<Seq<char>>,
    file_id: Option<Seq<char>>,
    mine: bool,
) -> CardStateView {
    let t = card_transfer(v, transfer_id, file_id);
    let f = card_file(t, file_id);
    let saved = match f {
        Some(f) => or_else(f.saved_path, saved_path),
        None => saved_path,
    };
    if t is Some && t->Some_0.error is Some {
        CardStateView::Failed(t->Some_0.error->Some_0)
    } else if f is Some && !f->Some_0.done {
        CardStateView::Running {
            sent: f->Some_0.transferred,
            total: f->Some_0.meta.size,
            detail: running_detail(f->Some_0.transferred, f->Some_0.meta.size),
            rate: t->Some_0.rate,
        }
    } else {
        match saved {
            Some(p) => CardStateView::Done {
                label: if mine {
                    "已发送"@
                } else {
                    "已保存"@
                },
                open: or_else(
                    transfer_target(v.transfers, transfer_id, file_id, v.system),
                    Some(p),
                ),
            },
            None => CardStateView::Done {
                label: if f is Some {
                    "已完成"@
                } else if mine {
                    "已发送"@
                } else {
                    "已接收"@
                },
                open: None,
            },
        }
    }
}

/// The card of one file.
pub open spec fn file_card_of(
    v: UiView,
    name: Seq<char>,
    size: u64,
    saved_path: Option<Seq<char>>,
    transfer_id: Option<Seq<char>>,
    file_id: Option<Seq<char>>,
    mine: bool,
) -> FileCardView {
    FileCardView {
        key: if transfer_id is Some && file_id is Some {
            transfer_id->Some_0 + "-"@ + file_id->Some_0
        } else {
            name
        },
        name,
        size_text: proto::size_text(size as nat),
        state: file_state(v, saved_path, transfer_id, file_id, mine),
    }
}

fn text_ref(s: &Option<String>) -> (r: Option<&str>)
    ensures
        match r {
            Some(t) => s.deep_view() == Some(t@),
            None => s.deep_view() is None,
        },
{
    match s {
        Some(t) => Some(t.as_str()),
        None => None,
    }
}

impl UiState {
    fn make_done(
        &self,
        saved: Option<String>,
        transfer_id: &Option<String>,
        file_id: &Option<String>,
        mine: bool,
        tracked_file: bool,
    ) -> (r: CardState)
        ensures
            r.deep_view() == (match saved.deep_view() {
                Some(p) => CardStateView::Done {
                    label: if mine {
                        "已发送"@
                    } else {
                        "已保存"@
                    },
                    open: or_else(
                        transfer_target(
                            self@.transfers,
                            transfer_id.deep_view(),
                            file_id.deep_view(),
                            self@.system,
                        ),
                        Some(p),
                    ),
                },
                None => CardStateView::Done {
                    label: if tracked_file {
                        "已完成"@
                    } else if mine {
                        "已发送"@
                    } else {
                        "已接收"@
                    },
                    open: None,
                },
            }),
    {
        match saved {
            Some(p) => {
                let label = if mine {
                    "已发送"
                } else {
                    "已保存"
                };
                let open = match transfer_open_target(
                    &self.transfers,
                    text_ref(transfer_id),
                    text_ref(file_id),
                    self.system,
                ) {
                    Some(t) => t,
                    None => p,
                };
                CardState::Done { label: label.to_owned(), open: Some(open) }
            },
            None => {
                let label = if tracked_file {
                    "已完成"
                } else if mine {
                    "已发送"
                } else {
                    "已接收"
                };
                CardState::Done { label: label.to_owned(), open: None }
            },
        }
    }

    fn make_file_state(
        &self,
        saved_path: &Option<String>,
        transfer_id: &Option<String>,
        file_id: &Option<String>,
        mine: bool,
    ) -> (r: CardState)
        ensures
            r.deep_view() == file_state(
                self@,
                saved_path.deep_view(),
                transfer_id.deep_view(),
                file_id.deep_view(),
                mine,
            ),
    {
        match (transfer_id, file_id) {
            (Some(tid), Some(fid)) => match find_transfer(&self.transfers, tid.as_str()) {
                Some(i) => {
                    let t = &self.transfers[i];
                    assert(self@.transfers[i as int] == t.deep_view());
                    match &t.error {
                        Some(e) => {
                            return CardState::Failed(e.clone());
                        },
                        None => {},
                    }
                    match find_file(&t.files, fid.as_str()) {
                        Some(k) => {
                            let f = &t.files[k];
                            assert(t.files.deep_view()[k as int] == f.deep_view());
                            if !f.done {
                                return make_running(f.transferred, f.meta.size, t.rate);
                            }
                            let saved = match &f.saved_path {
                                Some(p) => Some(p.clone()),
                                None => saved_path.clone(),
                            };
                            self.make_done(saved, transfer_id, file_id, mine, true)
                        },
                        None => self.make_done(
                            saved_path.clone(),
                            transfer_id,
                            file_id,
                            mine,
                            false,
                        ),
                    }
                },
                None => self.make_done(saved_path.clone(), transfer_id, file_id, mine, false),
            },
            _ => self.make_done(saved_path.clone(), transfer_id, file_id, mine, false),
        }
    }

    /// The card of one file.
    pub fn file_card(
        &self,
        name: &str,
        size: u64,
        saved_path: &Option<String>,
        transfer_id: &Option<String>,
        file_id: &Option<String>,
        mine: bool,
    ) -> (r: FileCard)
        ensures
            r.deep_view() == file_card_of(
                self@,
                name@,
                size,
                saved_path.deep_view(),
                transfer_id.deep_view(),
                file_id.deep_view(),
                mine,
            ),
    {
        let key = match (transfer_id, file_id) {
            (Some(t), Some(f)) => cat3(t.as_str(), "-", f.as_str()),
            _ => name.to_owned(),
        };
        FileCard {
            key,
            name: name.to_owned(),
            size_text: fmt_size(size),
            state: self.make_file_state(saved_path, transfer_id, file_id, mine),
        }
    }
}

// ---------------------------------------------------------------------------
// Laws of conversations
// ---------------------------------------------------------------------------

/// Only files belong together, those of one transfer in one direction.
pub proof fn law_what_belongs_together(a: ChatMessageView, b: ChatMessageView)
    ensures
        belong_together(a, b) <==> a.kind is File && b.kind is File && a.kind->transfer_id is Some
            && b.kind->transfer_id == a.kind->transfer_id && a.outgoing == b.outgoing,
        belong_together(a, b) <==> belong_together(b, a),
{
}

/// A conversation shows exactly the requests of its device, in the order they
/// came.
pub proof fn law_requests_stand_in_their_conversation(
    a: Seq<IncomingReqView>,
    b: Seq<IncomingReqView>,
    peer: Seq<char>,
    r: IncomingReqView,
)
    ensures
        requests_of(a + b, peer) == requests_of(a, peer) + requests_of(b, peer),
        r.peer.info.id == peer ==> requests_of(seq![r], peer) == seq![r],
        r.peer.info.id != peer ==> requests_of(seq![r], peer).len() == 0,
    decreases b.len(),
{
    let all = a + b;
    if b.len() == 0 {
        assert(all =~= a);
        assert(requests_of(a, peer) + requests_of(b, peer) =~= requests_of(a, peer));
    } else {
        law_requests_stand_in_their_conversation(a, b.drop_last(), peer, r);
        assert(all.drop_last() =~= a + b.drop_last());
        assert(all.last() == b.last());
        assert(requests_of(all, peer) =~= requests_of(a, peer) + requests_of(b, peer));
    }
    assert(seq![r].drop_last() =~= Seq::<IncomingReqView>::empty());
    assert(seq![r].last() == r);
    assert(requests_of(Seq::<IncomingReqView>::empty(), peer) =~= Seq::<IncomingReqView>::empty());
    if r.peer.info.id == peer {
        assert(requests_of(seq![r], peer) =~= seq![r]);
    }
}

/// Sizes and places add up over the messages of a group.
pub proof fn law_group_adds_up(a: Seq<ChatMessageView>, b: Seq<ChatMessageView>, m: ChatMessageView)
    ensures
        sizes_of(a + b) == sizes_of(a) + sizes_of(b),
        saved_paths(a + b) == saved_paths(a) + saved_paths(b),
        m.kind is File ==> sizes_of(seq![m]) == m.kind->size,
        m.kind is Text ==> sizes_of(seq![m]) == 0 && saved_paths(seq![m]).len() == 0,
        m.kind is File && m.kind->saved_path is Some ==> saved_paths(seq![m]) == seq![
            m.kind->saved_path->Some_0,
        ],
        m.kind is File && m.kind->saved_path is None ==> saved_paths(seq![m]).len() == 0,
    decreases b.len(),
{
    let all = a + b;
    if b.len() == 0 {
        assert(all =~= a);
        assert(saved_paths(a) + saved_paths(b) =~= saved_paths(a));
    } else {
        law_group_adds_up(a, b.drop_last(), m);
        assert(all.drop_last() =~= a + b.drop_last());
        assert(all.last() == b.last());
        assert(saved_paths(all) =~= saved_paths(a) + saved_paths(b));
    }
    let e = Seq::<ChatMessageView>::empty();
    assert(seq![m].drop_last() =~= e);
    assert(seq![m].last() == m);
    assert(sizes_of(e) == 0);
    assert(saved_paths(e) =~= Seq::<Seq<char>>::empty());
    if m.kind is File && m.kind->saved_path is Some {
        assert(saved_paths(seq![m]) =~= seq![m.kind->saved_path->Some_0]);
    }
}

/// Exactly the files that are complete are counted.
pub proof fn law_complete_files_are_counted(
    a: Seq<TransferFileView>,
    b: Seq<TransferFileView>,
    f: TransferFileView,
)
    ensures
        done_count(a + b) == done_count(a) + done_count(b),
        f.done ==> done_count(seq![f]) == 1,
        !f.done ==> done_count(seq![f]) == 0,
    decreases b.len(),
{
    let all = a + b;
    if b.len() == 0 {
        assert(all =~= a);
    } else {
        law_complete_files_are_counted(a, b.drop_last(), f);
        assert(all.drop_last() =~= a + b.drop_last());
        assert(all.last() == b.last());
    }
    assert(seq![f].drop_last() =~= Seq::<TransferFileView>::empty());
    assert(done_count(Seq::<TransferFileView>::empty()) == 0);
    assert(seq![f].last() == f);
}

/// A file is shown where it was saved, and where it came from only while
/// nothing was saved.
pub proof fn law_saved_place_goes_first(f: TransferFileView, sys: System)
    ensures
        f.saved_path is Some ==> known_path(f) == f.saved_path,
        f.saved_path is None ==> known_path(f) == f.source,
        file_target(f, sys) is Some ==> f.saved_path is Some || f.source is Some,
        f.saved_path is Some && !text::has_char(f.meta.rel_path, '/') ==> file_target(f, sys)
            == f.saved_path,
{
    if !text::has_char(f.meta.rel_path, '/') {
        paths::lemma_pieces_of_plain(f.meta.rel_path, '/', '/');
    }
}

/// A transfer is opened by the first of its files of which is known where it
/// is; nothing is opened where that is known of none.
pub proof fn law_first_known_file_opens(s: Seq<TransferFileView>)
    ensures
        first_known(s) is None <==> forall|i: int|
            0 <= i < s.len() ==> (#[trigger] s[i]).saved_path is None && s[i].source is None,
        first_known(s) is Some ==> known_path(first_known(s)->Some_0) is Some,
        first_known(s) is Some ==> exists|i: int|
            0 <= i < s.len() && #[trigger] s[i] == first_known(s)->Some_0 && forall|j: int|
                0 <= j < i ==> (#[trigger] s[j]).saved_path is None && s[j].source is None,
    decreases s.len(),
{
    if s.len() > 0 {
        if known_path(s[0]) is None {
            let t = s.skip(1);
            law_first_known_file_opens(t);
            if first_known(t) is Some {
                let i = choose|i: int|
                    0 <= i < t.len() && #[trigger] t[i] == first_known(t)->Some_0 && forall|j: int|
                        0 <= j < i ==> (#[trigger] t[j]).saved_path is None && t[j].source is None;
                assert(s[i + 1] == first_known(s)->Some_0);
                assert forall|j: int| 0 <= j < i + 1 implies (#[trigger] s[j]).saved_path is None
                    && s[j].source is None by {
                    if j > 0 {
                        assert(t[j - 1] == s[j]);
                    }
                }
                if forall|k: int|
                    0 <= k < s.len() ==> (#[trigger] s[k]).saved_path is None
                        && s[k].source is None {
                    assert forall|k: int| 0 <= k < t.len() implies (#[trigger] t[k]).saved_path
                        is None && t[k].source is None by {
                        assert(s[k + 1] == t[k]);
                    }
                }
            } else {
                assert forall|k: int| 0 <= k < s.len() implies (#[trigger] s[k]).saved_path is None
                    && s[k].source is None by {
                    if k > 0 {
                        assert(t[k - 1] == s[k]);
                    }
                }
            }
        } else {
            assert(s[0] == first_known(s)->Some_0);
        }
    }
}

/// The card of a group is the user's exactly where the messages are, and
/// deletes just these messages; it shows the error of its transfer where there
/// is one, how far it got while a file is missing, and that it is complete
/// else. A transfer that is no longer remembered is complete.
pub proof fn law_card_shows_its_transfer(v: UiView, msgs: Seq<ChatMessageView>, tid: Seq<char>)
    requires
        msgs.len() > 0,
        msgs[0].kind is File,
        msgs[0].kind->transfer_id == Some(tid),
    ensures
        ({
            let c = batch_card(v, msgs);
            &&& c.mine == msgs[0].outgoing
            &&& c.ids.len() == msgs.len()
            &&& forall|i: int| 0 <= i < msgs.len() ==> #[trigger] c.ids[i] == msgs[i].id
            &&& ui::transfer_index(v.transfers, tid) is None ==> c.state is Done
            &&& ui::transfer_index(v.transfers, tid) matches Some(i) ==> {
                let t = v.transfers[i];
                &&& c.title == client::batch_name(ui::rels_of(t.files))
                &&& t.error is Some ==> c.state == CardStateView::Failed(t.error->Some_0)
                &&& t.error is None && ui::all_done_of(t.files) ==> c.state is Done
                &&& t.error is None && !ui::all_done_of(t.files) ==> {
                    &&& c.state is Running
                    &&& c.state->rate == t.rate
                    &&& ui::moved_of(t.files) <= u64::MAX ==> c.state->sent == ui::moved_of(t.files)
                    &&& sizes_of(msgs) <= u64::MAX ==> c.state->total == sizes_of(msgs)
                }
            }
        }),
{
}

/// The card of a file shows that file: the error of its transfer where there
/// is one, how far the file got while it is not complete, and that it is
/// complete else, whether or not its transfer is remembered.
pub proof fn law_file_card_shows_its_file(
    v: UiView,
    name: Seq<char>,
    size: u64,
    saved_path: Option<Seq<char>>,
    tid: Seq<char>,
    fid: Seq<char>,
    mine: bool,
)
    ensures
        ({
            let c = file_card_of(v, name, size, saved_path, Some(tid), Some(fid), mine);
            &&& c.name == name
            &&& c.size_text == proto::size_text(size as nat)
            &&& c.key == tid + "-"@ + fid
            &&& ui::transfer_index(v.transfers, tid) is None ==> c.state is Done
            &&& ui::transfer_index(v.transfers, tid) matches Some(i) ==> {
                let t = v.transfers[i];
                &&& t.error is Some ==> c.state == CardStateView::Failed(t.error->Some_0)
                &&& t.error is None ==> (ui::file_index(t.files, fid) matches Some(k) ==> {
                    &&& t.files[k].done ==> c.state is Done
                    &&& !t.files[k].done ==> c.state is Running && c.state->sent
                        == t.files[k].transferred && c.state->total == t.files[k].meta.size
                        && c.state->rate == t.rate
                    &&& t.files[k].done && t.files[k].saved_path is Some && !text::has_char(
                        t.files[k].meta.rel_path,
                        '/',
                    ) ==> c.state->open == t.files[k].saved_path
                })
                &&& t.error is None && ui::file_index(t.files, fid) is None ==> c.state is Done
            }
        }),
{
    match ui::transfer_index(v.transfers, tid) {
        Some(i) => {
            match ui::file_index(v.transfers[i].files, fid) {
                Some(k) => {
                    law_saved_place_goes_first(v.transfers[i].files[k], v.system);
                },
                None => {},
            }
        },
        None => {},
    }
}

/// A file of the history that no transfer is remembered of is opened where it
/// was saved, and not where that is not known.
pub proof fn law_old_file_opens_where_it_was_saved(
    v: UiView,
    name: Seq<char>,
    size: u64,
    saved_path: Option<Seq<char>>,
    mine: bool,
)
    ensures
        ({
            let c = file_card_of(v, name, size, saved_path, None, None, mine);
            &&& c.state is Done
            &&& c.state->open == saved_path
            &&& c.key == name
        }),
{
}

/// The lines of a text are what stands between its line ends.
pub proof fn law_lines_are_the_text(parts: Seq<Seq<char>>)
    requires
        parts.len() > 0,
        parts.last().len() > 0,
        forall|i: int|
            0 <= i < parts.len() ==> !text::has_char(#[trigger] parts[i], '\n') && !text::has_char(
                parts[i],
                '\r',
            ),
    ensures
        lines_of(text::joined(parts, '\n')) == parts,
{
    lemma_pieces_of_lines(parts);
    let full = Seq::new((parts.len() - 1) as nat, |i: int| without_return(parts[i]));
    assert forall|i: int| 0 <= i < full.len() implies full[i] == parts[i] by {
        assert(!text::has_char(parts[i], '\r'));
        if parts[i].len() > 0 {
            assert(parts[i].last() == parts[i][parts[i].len() - 1]);
        }
    }
    assert(full.push(parts.last()) =~= parts);
}

proof fn lemma_pieces_of_lines(parts: Seq<Seq<char>>)
    requires
        parts.len() > 0,
        forall|i: int| 0 <= i < parts.len() ==> !text::has_char(#[trigger] parts[i], '\n'),
    ensures
        text::pieces(text::joined(parts, '\n'), '\n', '\n') == parts,
    decreases parts.len(),
{
    if parts.len() == 1 {
        paths::lemma_pieces_of_plain(parts[0], '\n', '\n');
        assert(seq![parts[0]] =~= parts);
    } else {
        let t = parts.drop_last();
        assert forall|i: int| 0 <= i < t.len() implies !text::has_char(#[trigger] t[i], '\n') by {
            assert(t[i] == parts[i]);
        }
        lemma_pieces_of_lines(t);
        assert(!text::has_char(parts[parts.len() - 1], '\n'));
        paths::lemma_pieces_of_plain(parts.last(), '\n', '\n');
        paths::lemma_pieces_concat(text::joined(t, '\n'), '\n', parts.last(), '\n', '\n');
        assert(t + seq![parts.last()] =~= parts);
    }
}

/// A time of day is two digits, a colon and two digits, of which the time can
/// be told.
pub proof fn law_time_of_day_is_told(h: u32, m: u32)
    requires
        h < 24,
        m < 60,
    ensures
        ({
            let t = time_text(Some((h, m)));
            &&& t.len() == 5
            &&& t[2] == ':'
            &&& 10 * text::digit_value(t[0]) + text::digit_value(t[1]) == h
            &&& 10 * text::digit_value(t[3]) + text::digit_value(t[4]) == m
        }),
{
    reveal_strlit(":");
}

/// A complete group is opened where it lies, as far as that is known, and says
/// whether it was sent or saved.
pub proof fn law_complete_group_is_opened(v: UiView, msgs: Seq<ChatMessageView>, tid: Seq<char>)
    requires
        msgs.len() > 0,
        msgs[0].kind is File,
        msgs[0].kind->transfer_id == Some(tid),
        batch_card(v, msgs).state is Done,
    ensures
        ({
            let state = batch_card(v, msgs).state;
            &&& msgs[0].outgoing ==> state->label == "已发送"@
            &&& !msgs[0].outgoing && ui::transfer_index(v.transfers, tid) is Some ==> state->label
                == "已保存"@
            &&& !msgs[0].outgoing && ui::transfer_index(v.transfers, tid) is None ==> state->label
                == "已接收"@
            &&& saved_paths(msgs).len() > 0 ==> state->open is Some
            &&& ui::transfer_index(v.transfers, tid) is None && saved_paths(msgs).len() == 1
                ==> state->open == Some(saved_paths(msgs)[0])
            &&& ui::transfer_index(v.transfers, tid) matches Some(i) ==> (first_known(
                v.transfers[i].files,
            ) is Some ==> state->open is Some)
        }),
{
    match ui::transfer_index(v.transfers, tid) {
        Some(i) => {
            law_first_known_file_opens(v.transfers[i].files);
        },
        None => {},
    }
}

} // verus!

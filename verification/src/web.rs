//! The browser client: what a browser is shown, what it may download, and
//! where its uploads go.

use vstd::prelude::*;
use vstd::string::*;

use crate::ids;
use crate::ids::new_id;
use crate::page;
use crate::page::web_page;
use crate::paths;
use crate::paths::{file_name, join_path, strip_prefix, System};
use crate::proto::{
    ChatMessage, ChatMessageView, FileMeta, FileMetaView, MessageKind, MessageKindView,
    WEB_PEER_ID,
};
use crate::server;
use crate::server::{free_path, make_text_message, Reply, ReplyView, ServerState, ServerView};
use crate::text;
use crate::text::{
    cat, cat3, chars_of, contains_char, join, replace_char, replace_text, same_text, split, trim,
};

verus! {

/// Uploads of browsers go to this directory below the download directory.
pub const WEB_UPLOAD_DIR: &'static str = "网页上传";

/// A browser is shown at most this many messages.
pub const WEB_HISTORY_LIMIT: i64 = 200;

/// An upload of a browser may not be larger: ten gigabytes.
pub const WEB_UPLOAD_MAX: u64 = 10_737_418_240;

/// At most this many files are on offer.
pub const OFFER_LIMIT: usize = 500;

/// The extension of an upload that is not complete.
pub const WEB_PART_EXTENSION: &'static str = "ltwebuploading";

/// Where the name of the device stands in the page.
pub const NAME_MARK: &'static str = "__DEVICE_NAME__";

/// A file that browsers can download.
#[derive(Debug, PartialEq, Eq)]
pub struct WebOffer {
    pub id: String,
    pub name: String,
    /// Where it lies in what was published, folder first.
    pub rel: String,
    pub size: u64,
    pub path: String,
    pub created_at: i64,
    /// What was published at once has one id.
    pub transfer_id: String,
}

/// [`WebOffer`] as the contracts speak of it.
#[verifier::ext_equal]
pub struct WebOfferView {
    pub id: Seq<char>,
    pub name: Seq<char>,
    pub rel: Seq<char>,
    pub size: u64,
    pub path: Seq<char>,
    pub created_at: i64,
    pub transfer_id: Seq<char>,
}

impl DeepView for WebOffer {
    type V = WebOfferView;

    open spec fn deep_view(&self) -> WebOfferView {
        WebOfferView {
            id: self.id.deep_view(),
            name: self.name.deep_view(),
            rel: self.rel.deep_view(),
            size: self.size.deep_view(),
            path: self.path.deep_view(),
            created_at: self.created_at.deep_view(),
            transfer_id: self.transfer_id.deep_view(),
        }
    }
}

impl Clone for WebOffer {
    fn clone(&self) -> (r: Self)
        ensures
            r.deep_view() == self.deep_view(),
    {
        let r = WebOffer {
            id: self.id.clone(),
            name: self.name.clone(),
            rel: self.rel.clone(),
            size: self.size,
            path: self.path.clone(),
            created_at: self.created_at,
            transfer_id: self.transfer_id.clone(),
        };
        r
    }
}

/// A message as a browser gets it.
#[derive(Debug, PartialEq, Eq)]
pub struct WebMessageDto {
    pub id: i64,
    /// Whether this device sent it, not the browser.
    pub outgoing: bool,
    /// `text` or `file`.
    pub kind: String,
    pub text: String,
    pub name: String,
    pub size: u64,
    /// Files with one id belong together.
    pub tid: String,
    pub rel: String,
    /// What to download it by; empty where it is not on offer.
    pub offer: String,
    pub created_at: i64,
}

/// [`WebMessageDto`] as the contracts speak of it.
#[verifier::ext_equal]
pub struct WebMessageDtoView {
    pub id: i64,
    pub outgoing: bool,
    pub kind: Seq<char>,
    pub text: Seq<char>,
    pub name: Seq<char>,
    pub size: u64,
    pub tid: Seq<char>,
    pub rel: Seq<char>,
    pub offer: Seq<char>,
    pub created_at: i64,
}

impl DeepView for WebMessageDto {
    type V = WebMessageDtoView;

    open spec fn deep_view(&self) -> WebMessageDtoView {
        WebMessageDtoView {
            id: self.id.deep_view(),
            outgoing: self.outgoing.deep_view(),
            kind: self.kind.deep_view(),
            text: self.text.deep_view(),
            name: self.name.deep_view(),
            size: self.size.deep_view(),
            tid: self.tid.deep_view(),
            rel: self.rel.deep_view(),
            offer: self.offer.deep_view(),
            created_at: self.created_at.deep_view(),
        }
    }
}

impl Clone for WebMessageDto {
    fn clone(&self) -> (r: Self)
        ensures
            r.deep_view() == self.deep_view(),
    {
        let r = WebMessageDto {
            id: self.id,
            outgoing: self.outgoing,
            kind: self.kind.clone(),
            text: self.text.clone(),
            name: self.name.clone(),
            size: self.size,
            tid: self.tid.clone(),
            rel: self.rel.clone(),
            offer: self.offer.clone(),
            created_at: self.created_at,
        };
        r
    }
}

/// Which messages a browser asks for: those after this one.
#[derive(Debug, PartialEq, Eq)]
pub struct SinceParams {
    pub since: Option<i64>,
}

/// [`SinceParams`] as the contracts speak of it.
#[verifier::ext_equal]
pub struct SinceParamsView {
    pub since: Option<i64>,
}

impl DeepView for SinceParams {
    type V = SinceParamsView;

    open spec fn deep_view(&self) -> SinceParamsView {
        SinceParamsView {
            since: self.since.deep_view(),
        }
    }
}

impl Clone for SinceParams {
    fn clone(&self) -> (r: Self)
        ensures
            r.deep_view() == self.deep_view(),
    {
        let r = SinceParams {
            since: self.since.clone(),
        };
        r
    }
}

/// A text from a browser.
#[derive(Debug, PartialEq, Eq)]
pub struct WebTextBody {
    pub text: String,
}

/// [`WebTextBody`] as the contracts speak of it.
#[verifier::ext_equal]
pub struct WebTextBodyView {
    pub text: Seq<char>,
}

impl DeepView for WebTextBody {
    type V = WebTextBodyView;

    open spec fn deep_view(&self) -> WebTextBodyView {
        WebTextBodyView {
            text: self.text.deep_view(),
        }
    }
}

impl Clone for WebTextBody {
    fn clone(&self) -> (r: Self)
        ensures
            r.deep_view() == self.deep_view(),
    {
        let r = WebTextBody {
            text: self.text.clone(),
        };
        r
    }
}

/// What a browser says of an upload.
#[derive(Debug, PartialEq, Eq)]
pub struct UploadParams {
    pub name: Option<String>,
    /// Where it goes, folder first.
    pub rel: Option<String>,
    /// Uploads with one id belong together.
    pub batch: Option<String>,
}

/// [`UploadParams`] as the contracts speak of it.
#[verifier::ext_equal]
pub struct UploadParamsView {
    pub name: Option<Seq<char>>,
    pub rel: Option<Seq<char>>,
    pub batch: Option<Seq<char>>,
}

impl DeepView for UploadParams {
    type V = UploadParamsView;

    open spec fn deep_view(&self) -> UploadParamsView {
        UploadParamsView {
            name: self.name.deep_view(),
            rel: self.rel.deep_view(),
            batch: self.batch.deep_view(),
        }
    }
}

impl Clone for UploadParams {
    fn clone(&self) -> (r: Self)
        ensures
            r.deep_view() == self.deep_view(),
    {
        let r = UploadParams {
            name: self.name.clone(),
            rel: self.rel.clone(),
            batch: self.batch.clone(),
        };
        r
    }
}

/// A file on offer as a browser gets it.
#[derive(Debug, PartialEq, Eq)]
pub struct WebOfferDto {
    pub id: String,
    pub name: String,
    pub size: u64,
    pub created_at: i64,
}

/// [`WebOfferDto`] as the contracts speak of it.
#[verifier::ext_equal]
pub struct WebOfferDtoView {
    pub id: Seq<char>,
    pub name: Seq<char>,
    pub size: u64,
    pub created_at: i64,
}

impl DeepView for WebOfferDto {
    type V = WebOfferDtoView;

    open spec fn deep_view(&self) -> WebOfferDtoView {
        WebOfferDtoView {
            id: self.id.deep_view(),
            name: self.name.deep_view(),
            size: self.size.deep_view(),
            created_at: self.created_at.deep_view(),
        }
    }
}

impl Clone for WebOfferDto {
    fn clone(&self) -> (r: Self)
        ensures
            r.deep_view() == self.deep_view(),
    {
        let r = WebOfferDto {
            id: self.id.clone(),
            name: self.name.clone(),
            size: self.size,
            created_at: self.created_at,
        };
        r
    }
}

/// Messages that a browser wants gone.
#[derive(Debug, PartialEq, Eq)]
pub struct DeleteMessagesBody {
    pub ids: Vec<i64>,
}

/// [`DeleteMessagesBody`] as the contracts speak of it.
#[verifier::ext_equal]
pub struct DeleteMessagesBodyView {
    pub ids: Seq<i64>,
}

impl DeepView for DeleteMessagesBody {
    type V = DeleteMessagesBodyView;

    open spec fn deep_view(&self) -> DeleteMessagesBodyView {
        DeleteMessagesBodyView {
            ids: self.ids.deep_view(),
        }
    }
}

impl Clone for DeleteMessagesBody {
    fn clone(&self) -> (r: Self)
        ensures
            r.deep_view() == self.deep_view(),
    {
        let r = DeleteMessagesBody {
            ids: self.ids.clone(),
        };
        assert(r.ids.deep_view() =~= self.ids.deep_view());
        r
    }
}

// ---------------------------------------------------------------------------
// Publishing
// ---------------------------------------------------------------------------

/// The newest of the offers.
pub open spec fn newest(s: Seq<WebOfferView>) -> Seq<WebOfferView> {
    if s.len() > OFFER_LIMIT {
        s.skip(s.len() - OFFER_LIMIT)
    } else {
        s
    }
}

pub open spec fn offers_of(
    files: Seq<(FileMetaView, Seq<char>)>,
    ids: Seq<Seq<char>>,
    batch: Seq<char>,
    now: i64,
) -> Seq<WebOfferView> {
    Seq::new(
        files.len(),
        |i: int|
            WebOfferView {
                id: ids[i],
                name: files[i].0.name,
                rel: files[i].0.rel_path,
                size: files[i].0.size,
                path: files[i].1,
                created_at: now,
                transfer_id: batch,
            },
    )
}

/// The messages of files that were published, before the history numbers
/// them.
pub open spec fn offer_messages(
    files: Seq<(FileMetaView, Seq<char>)>,
    ids: Seq<Seq<char>>,
    batch: Seq<char>,
    now: i64,
) -> Seq<ChatMessageView> {
    Seq::new(
        files.len(),
        |i: int|
            ChatMessageView {
                id: 0,
                peer_id: WEB_PEER_ID@,
                outgoing: true,
                kind: MessageKindView::File {
                    name: files[i].0.name,
                    size: files[i].0.size,
                    saved_path: Some(files[i].1),
                    transfer_id: Some(batch),
                    file_id: Some(ids[i]),
                },
                created_at: now,
            },
    )
}

/// Publishes files under given ids.
pub fn offer_as(
    st: &mut ServerState,
    files: &Vec<(FileMeta, String)>,
    ids: &Vec<String>,
    batch: &str,
    now: i64,
) -> (r: Vec<ChatMessage>)
    requires
        old(st).wf(),
        ids@.len() == files@.len(),
    ensures
        final(st).wf(),
        final(st)@ == (ServerView {
            offers: newest(
                old(st)@.offers + offers_of(files.deep_view(), ids.deep_view(), batch@, now),
            ),
            ..old(st)@
        }),
        r.deep_view() == offer_messages(files.deep_view(), ids.deep_view(), batch@, now),
{
    let ghost fv = files.deep_view();
    let ghost iv = ids.deep_view();
    let ghost start = st@;
    let ghost offers = offers_of(fv, iv, batch@, now);
    let ghost msgs = offer_messages(fv, iv, batch@, now);
    let mut out: Vec<ChatMessage> = Vec::new();
    let mut i: usize = 0;
    assert(st@.offers =~= start.offers + offers.take(0));
    while i < files.len()
        invariant
            fv == files.deep_view(),
            iv == ids.deep_view(),
            ids@.len() == files@.len(),
            i <= files@.len(),
            offers == offers_of(fv, iv, batch@, now),
            msgs == offer_messages(fv, iv, batch@, now),
            st@ == (ServerView { offers: start.offers + offers.take(i as int), ..start }),
            out.deep_view() =~= msgs.take(i as int),
        decreases files@.len() - i,
    {
        let f = &files[i];
        assert(fv[i as int] == f.deep_view());
        assert(iv[i as int] == ids@[i as int]@);
        let ghost offers_before = st@.offers;
        let ghost out_before = out.deep_view();
        let offer = WebOffer {
            id: ids[i].clone(),
            name: f.0.name.clone(),
            rel: f.0.rel_path.clone(),
            size: f.0.size,
            path: f.1.clone(),
            created_at: now,
            transfer_id: batch.to_owned(),
        };
        st.offers.push(offer);
        assert(st@.offers =~= offers_before.push(offers[i as int]));
        assert(st@.offers =~= start.offers + offers.take(i + 1));
        let msg = ChatMessage {
            id: 0,
            peer_id: WEB_PEER_ID.to_owned(),
            outgoing: true,
            kind: MessageKind::File {
                name: f.0.name.clone(),
                size: f.0.size,
                saved_path: Some(f.1.clone()),
                transfer_id: Some(batch.to_owned()),
                file_id: Some(ids[i].clone()),
            },
            created_at: now,
        };
        out.push(msg);
        assert(out.deep_view() =~= out_before.push(msgs[i as int]));
        i = i + 1;
    }
    assert(offers.take(i as int) =~= offers);
    assert(msgs.take(i as int) =~= msgs);
    let n: usize = st.offers.len();
    if n > OFFER_LIMIT {
        let ghost all = st@.offers;
        let kept = st.offers.split_off(n - OFFER_LIMIT);
        assert(kept.deep_view() =~= all.skip(n - OFFER_LIMIT));
        st.offers = kept;
    }
    out
}

pub open spec fn all_uuids(ids: Seq<Seq<char>>) -> bool {
    forall|i: int| 0 <= i < ids.len() ==> ids::is_uuid_text(#[trigger] ids[i])
}

/// Publishes files under random ids. What comes back are the messages for
/// the history.
pub fn web_offer(st: &mut ServerState, files: &Vec<(FileMeta, String)>, now: i64) -> (r: Vec<
    ChatMessage,
>)
    requires
        old(st).wf(),
    ensures
        final(st).wf(),
        exists|batch: Seq<char>, ids: Seq<Seq<char>>|
            #![trigger offers_of(files.deep_view(), ids, batch, now)]
            ids::is_uuid_text(batch) && ids.len() == files@.len() && all_uuids(ids) && final(st)@
                == (ServerView {
                offers: newest(old(st)@.offers + offers_of(files.deep_view(), ids, batch, now)),
                ..old(st)@
            }) && r.deep_view() == offer_messages(files.deep_view(), ids, batch, now),
{
    let batch = new_id();
    let mut ids: Vec<String> = Vec::new();
    let mut i: usize = 0;
    while i < files.len()
        invariant
            i <= files@.len(),
            ids@.len() == i,
            all_uuids(ids.deep_view()),
        decreases files@.len() - i,
    {
        let ghost before = ids.deep_view();
        let id = new_id();
        ids.push(id);
        proof {
            let v = ids.deep_view();
            assert(v =~= before.push(id@));
            assert forall|k: int| 0 <= k < v.len() implies ids::is_uuid_text(#[trigger] v[k]) by {
                if k < before.len() {
                    assert(v[k] == before[k]);
                }
            }
        }
        i = i + 1;
    }
    let ghost iv = ids.deep_view();
    let r = offer_as(st, files, &ids, batch.as_str(), now);
    proof {
        assert(offers_of(files.deep_view(), iv, batch@, now) == offers_of(
            files.deep_view(),
            iv,
            batch@,
            now,
        ));
    }
    r
}

/// Files that were published together share one id, whatever is published
/// besides, and never more than the limit are on offer.
pub proof fn law_batch_shares_one_id(
    before: Seq<WebOfferView>,
    files: Seq<(FileMetaView, Seq<char>)>,
    ids: Seq<Seq<char>>,
    batch: Seq<char>,
    now: i64,
)
    ensures
        ({
            let after = newest(before + offers_of(files, ids, batch, now));
            let kept = if files.len() < OFFER_LIMIT {
                files.len() as int
            } else {
                OFFER_LIMIT as int
            };
            &&& after.len() <= OFFER_LIMIT
            &&& after.len() >= kept
            &&& forall|i: int|
                after.len() - kept <= i < after.len() ==> (#[trigger] after[i]).transfer_id == batch
                    && after[i].path == files[files.len() - after.len() + i].1
        }),
{
}

pub fn web_text(t: &str, now: i64) -> (r: ChatMessage)
    ensures
        r.deep_view() == server::text_message(0, WEB_PEER_ID@, true, t@, now),
{
    make_text_message(0, WEB_PEER_ID, true, t, now)
}

// ---------------------------------------------------------------------------
// The page
// ---------------------------------------------------------------------------

pub open spec fn escaped_char(c: char) -> Seq<char> {
    if c == '&' {
        "&amp;"@
    } else if c == '<' {
        "&lt;"@
    } else if c == '>' {
        "&gt;"@
    } else if c == '"' {
        "&quot;"@
    } else {
        seq![c]
    }
}

/// A text as it is written in a page.
pub open spec fn escaped(s: Seq<char>) -> Seq<char>
    decreases s.len(),
{
    if s.len() == 0 {
        Seq::empty()
    } else {
        escaped(s.drop_last()) + escaped_char(s.last())
    }
}

pub fn html_escape(s: &str) -> (r: String)
    ensures
        r@ == escaped(s@),
{
    let v = chars_of(s);
    let mut out = String::new();
    let mut i: usize = 0;
    assert(v@.take(0) =~= Seq::<char>::empty());
    while i < v.len()
        invariant
            i <= v@.len(),
            out@ == escaped(v@.take(i as int)),
        decreases v@.len() - i,
    {
        let c = v[i];
        proof {
            assert(v@.take(i + 1).drop_last() =~= v@.take(i as int));
            assert(v@.take(i + 1).last() == c);
        }
        let ghost before = out@;
        if c == '&' {
            out.append("&amp;");
        } else if c == '<' {
            out.append("&lt;");
        } else if c == '>' {
            out.append("&gt;");
        } else if c == '"' {
            out.append("&quot;");
        } else {
            out.push(c);
            assert(out@ =~= before + seq![c]);
        }
        i = i + 1;
    }
    assert(v@.take(i as int) =~= v@);
    out
}

/// Nothing in an escaped text opens or closes a tag or an attribute.
pub proof fn law_escaped_is_inert(s: Seq<char>)
    ensures
        !text::has_char(escaped(s), '<'),
        !text::has_char(escaped(s), '>'),
        !text::has_char(escaped(s), '"'),
    decreases s.len(),
{
    if s.len() > 0 {
        law_escaped_is_inert(s.drop_last());
        reveal_strlit("&amp;");
        reveal_strlit("&lt;");
        reveal_strlit("&gt;");
        reveal_strlit("&quot;");
        let h = escaped(s.drop_last());
        let e = escaped_char(s.last());
        let r = escaped(s);
        assert forall|i: int| 0 <= i < r.len() implies r[i] != '<' && r[i] != '>' && r[i]
            != '"' by {
            if i < h.len() {
                assert(r[i] == h[i]);
            } else {
                assert(r[i] == e[i - h.len()]);
            }
        }
    }
}

/// Escaping goes piece by piece.
pub proof fn law_escaping_goes_piece_by_piece(a: Seq<char>, b: Seq<char>)
    ensures
        escaped(a + b) == escaped(a) + escaped(b),
    decreases b.len(),
{
    if b.len() == 0 {
        assert(a + b =~= a);
        assert(escaped(a) + escaped(b) =~= escaped(a));
    } else {
        law_escaping_goes_piece_by_piece(a, b.drop_last());
        assert((a + b).drop_last() =~= a + b.drop_last());
        assert(escaped(a) + (escaped(b.drop_last()) + escaped_char(b.last())) =~= escaped(a)
            + escaped(b.drop_last()) + escaped_char(b.last()));
    }
}

/// The characters that are escaped, in the order in which that is undone.
spec fn special(k: int) -> char {
    if k == 0 {
        '<'
    } else if k == 1 {
        '>'
    } else if k == 2 {
        '"'
    } else {
        '&'
    }
}

/// A character while the first `k` escapes are undone.
spec fn partly_escaped_char(c: char, k: int) -> Seq<char> {
    if exists|i: int| 0 <= i < k && c == #[trigger] special(i) {
        seq![c]
    } else {
        escaped_char(c)
    }
}

spec fn partly_escaped(s: Seq<char>, k: int) -> Seq<char>
    decreases s.len(),
{
    if s.len() == 0 {
        Seq::empty()
    } else {
        partly_escaped_char(s[0], k) + partly_escaped(s.skip(1), k)
    }
}

proof fn lemma_escaped_from_the_front(s: Seq<char>)
    ensures
        partly_escaped(s, 0) == escaped(s),
    decreases s.len(),
{
    if s.len() > 0 {
        let t = s.skip(1);
        lemma_escaped_from_the_front(t);
        law_escaping_goes_piece_by_piece(seq![s[0]], t);
        assert(seq![s[0]] + t =~= s);
        assert(seq![s[0]].drop_last() =~= Seq::empty());
        reveal_with_fuel(escaped, 2);
        assert(escaped(seq![s[0]]) =~= escaped_char(s[0]));
    }
}

proof fn lemma_nothing_left_escaped(s: Seq<char>)
    ensures
        partly_escaped(s, 4) == s,
    decreases s.len(),
{
    if s.len() > 0 {
        lemma_nothing_left_escaped(s.skip(1));
        assert(special(0) == '<' && special(1) == '>' && special(2) == '"' && special(3) == '&');
        assert(partly_escaped_char(s[0], 4) == seq![s[0]]);
        assert(seq![s[0]] + s.skip(1) =~= s);
    } else {
        assert(partly_escaped(s, 4) =~= s);
    }
}

proof fn lemma_undo_one(s: Seq<char>, k: int)
    requires
        0 <= k < 4,
    ensures
        text::with_text_replaced(
            partly_escaped(s, k),
            escaped_char(special(k)),
            seq![special(k)],
        ) == partly_escaped(s, k + 1),
    decreases s.len(),
{
    let pat = escaped_char(special(k));
    let with = seq![special(k)];
    reveal_strlit("&amp;");
    reveal_strlit("&lt;");
    reveal_strlit("&gt;");
    reveal_strlit("&quot;");
    if s.len() > 0 {
        let c = s[0];
        let front = partly_escaped_char(c, k);
        let rest = partly_escaped(s.skip(1), k);
        lemma_undo_one(s.skip(1), k);
        assert(special(0) == '<' && special(1) == '>' && special(2) == '"' && special(3) == '&');
        if c == special(k) {
            assert(front == pat);
            assert(partly_escaped_char(c, k + 1) == with);
            text::lemma_replaced_in_front(pat, rest, with);
        } else {
            assert(partly_escaped_char(c, k + 1) == front);
            let all = front + rest;
            let n = front.len() as int;
            assert forall|i: int| 0 <= i < n implies !text::occurs_at(all, pat, i) by {
                if text::occurs_at(all, pat, i) {
                    let found = all.subrange(i, i + pat.len());
                    assert(found[0] == all[i] && found[1] == all[i + 1]);
                    assert(all[i] == front[i]);
                    if i + 1 < n {
                        assert(all[i + 1] == front[i + 1]);
                    }
                }
            }
            text::lemma_replaced_behind(all, pat, with, n);
            assert(all.take(n) =~= front);
            assert(all.skip(n) =~= rest);
        }
    }
}

/// Undoing the escapes, that of `&` last, gives the text back.
pub proof fn law_escaped_reads_back(s: Seq<char>)
    ensures
        text::with_text_replaced(
            text::with_text_replaced(
                text::with_text_replaced(
                    text::with_text_replaced(escaped(s), "&lt;"@, seq!['<']),
                    "&gt;"@,
                    seq!['>'],
                ),
                "&quot;"@,
                seq!['"'],
            ),
            "&amp;"@,
            seq!['&'],
        ) == s,
{
    lemma_escaped_from_the_front(s);
    lemma_undo_one(s, 0);
    lemma_undo_one(s, 1);
    lemma_undo_one(s, 2);
    lemma_undo_one(s, 3);
    lemma_nothing_left_escaped(s);
}

/// A template with the name of a device where it belongs.
pub open spec fn with_device_name(template: Seq<char>, name: Seq<char>) -> Seq<char> {
    text::with_text_replaced(template, NAME_MARK@, escaped(name))
}

pub fn fill_page(template: &str, device_name: &str) -> (r: String)
    ensures
        r@ == with_device_name(template@, device_name@),
{
    let name = html_escape(device_name);
    proof {
        reveal_strlit("__DEVICE_NAME__");
    }
    replace_text(template, NAME_MARK, name.as_str())
}

/// The page for a browser, with the name of this device.
pub fn page(device_name: &str) -> (r: String)
    ensures
        r@ == with_device_name(page::page_text(), device_name@),
{
    let template = web_page();
    fill_page(template.as_str(), device_name)
}

// ---------------------------------------------------------------------------
// Messages for a browser
// ---------------------------------------------------------------------------

/// Where an offer lies in what was published.
pub open spec fn rel_of(offers: Seq<WebOfferView>, id: Seq<char>) -> Option<Seq<char>>
    decreases offers.len(),
{
    if offers.len() == 0 {
        None
    } else if offers.last().id == id {
        Some(offers.last().rel)
    } else {
        rel_of(offers.drop_last(), id)
    }
}

pub open spec fn upload_root(download_dir: Seq<char>, sys: System) -> Seq<char> {
    paths::joined_path(download_dir, WEB_UPLOAD_DIR@, sys)
}

/// Where a file that was uploaded lies below the directory for uploads;
/// nothing for other files.
pub open spec fn uploaded_rel(
    saved: Option<Seq<char>>,
    download_dir: Seq<char>,
    sys: System,
) -> Seq<char> {
    match saved {
        None => Seq::empty(),
        Some(p) => match paths::below(p, upload_root(download_dir, sys), sys) {
            None => Seq::empty(),
            Some(r) => text::with_char_replaced(r, '\\', "/"@),
        },
    }
}

pub open spec fn or_empty(s: Option<Seq<char>>) -> Seq<char> {
    match s {
        Some(t) => t,
        None => Seq::empty(),
    }
}

/// A message as a browser gets it.
pub open spec fn dto_of(
    m: ChatMessageView,
    offers: Seq<WebOfferView>,
    download_dir: Seq<char>,
    sys: System,
) -> WebMessageDtoView {
    match m.kind {
        MessageKindView::Text(t) => WebMessageDtoView {
            id: m.id,
            outgoing: m.outgoing,
            kind: "text"@,
            text: t,
            name: Seq::empty(),
            size: 0,
            tid: Seq::empty(),
            rel: Seq::empty(),
            offer: Seq::empty(),
            created_at: m.created_at,
        },
        MessageKindView::File { name, size, saved_path, transfer_id, file_id } => {
            let live = rel_of(offers, or_empty(file_id));
            WebMessageDtoView {
                id: m.id,
                outgoing: m.outgoing,
                kind: "file"@,
                text: Seq::empty(),
                name,
                size,
                tid: or_empty(transfer_id),
                rel: match live {
                    Some(r) => r,
                    None => uploaded_rel(saved_path, download_dir, sys),
                },
                offer: match live {
                    Some(_) => or_empty(file_id),
                    None => Seq::empty(),
                },
                created_at: m.created_at,
            }
        },
    }
}

/// The messages after the one that a browser has.
pub open spec fn dtos_of(
    history: Seq<ChatMessageView>,
    since: i64,
    offers: Seq<WebOfferView>,
    download_dir: Seq<char>,
    sys: System,
) -> Seq<WebMessageDtoView>
    decreases history.len(),
{
    if history.len() == 0 {
        Seq::empty()
    } else {
        let head = dtos_of(history.drop_last(), since, offers, download_dir, sys);
        if history.last().id > since {
            head.push(dto_of(history.last(), offers, download_dir, sys))
        } else {
            head
        }
    }
}

fn text_or_empty(s: &Option<String>) -> (r: String)
    ensures
        r@ == or_empty(s.deep_view()),
{
    match s {
        Some(t) => t.clone(),
        None => String::new(),
    }
}

fn find_rel(offers: &Vec<WebOffer>, id: &str) -> (r: Option<String>)
    ensures
        r.deep_view() == rel_of(offers.deep_view(), id@),
{
    let ghost all = offers.deep_view();
    let mut i: usize = offers.len();
    assert(all.take(i as int) =~= all);
    while i > 0
        invariant
            all == offers.deep_view(),
            i <= offers@.len(),
            rel_of(all, id@) == rel_of(all.take(i as int), id@),
        decreases i,
    {
        let f = &offers[i - 1];
        assert(all[i - 1] == f.deep_view());
        assert(all.take(i as int).drop_last() =~= all.take(i - 1));
        assert(all.take(i as int).last() == all[i - 1]);
        if same_text(f.id.as_str(), id) {
            return Some(f.rel.clone());
        }
        i = i - 1;
    }
    None
}

fn find_uploaded_rel(saved: &Option<String>, download_dir: &str, sys: System) -> (r: String)
    ensures
        r@ == uploaded_rel(saved.deep_view(), download_dir@, sys),
{
    match saved {
        None => String::new(),
        Some(p) => {
            let root = join_path(download_dir, WEB_UPLOAD_DIR, sys);
            match strip_prefix(p.as_str(), root.as_str(), sys) {
                None => String::new(),
                Some(rest) => replace_char(rest.as_str(), '\\', "/"),
            }
        },
    }
}

fn make_dto(
    m: &ChatMessage,
    offers: &Vec<WebOffer>,
    download_dir: &str,
    sys: System,
) -> (r: WebMessageDto)
    ensures
        r.deep_view() == dto_of(m.deep_view(), offers.deep_view(), download_dir@, sys),
        r.id == m.id,
        r.outgoing == m.outgoing,
        r.created_at == m.created_at,
{
    match &m.kind {
        MessageKind::Text(t) => WebMessageDto {
            id: m.id,
            outgoing: m.outgoing,
            kind: "text".to_owned(),
            text: t.clone(),
            name: String::new(),
            size: 0,
            tid: String::new(),
            rel: String::new(),
            offer: String::new(),
            created_at: m.created_at,
        },
        MessageKind::File { name, size, saved_path, transfer_id, file_id } => {
            let fid = text_or_empty(file_id);
            let (rel, offer) = match find_rel(offers, fid.as_str()) {
                Some(live) => (live, fid),
                None => (find_uploaded_rel(saved_path, download_dir, sys), String::new()),
            };
            WebMessageDto {
                id: m.id,
                outgoing: m.outgoing,
                kind: "file".to_owned(),
                text: String::new(),
                name: name.clone(),
                size: *size,
                tid: text_or_empty(transfer_id),
                rel,
                offer,
                created_at: m.created_at,
            }
        },
    }
}

/// What a browser gets of the conversation.
pub fn messages(st: &ServerState, history: &Vec<ChatMessage>, params: &SinceParams) -> (r: Vec<
    WebMessageDto,
>)
    ensures
        r.deep_view() == dtos_of(
            history.deep_view(),
            (match params.since {
                Some(n) => n,
                None => 0,
            }),
            st@.offers,
            st@.download_dir,
            st@.system,
        ),
        forall|k: int|
            0 <= k < r@.len() ==> exists|i: int|
                0 <= i < history@.len() && (#[trigger] history@[i]).id == (#[trigger] r@[k]).id
                    && history@[i].outgoing == r@[k].outgoing && history@[i].created_at
                    == r@[k].created_at,
{
    let since: i64 = match params.since {
        Some(n) => n,
        None => 0,
    };
    let ghost all = history.deep_view();
    let mut out: Vec<WebMessageDto> = Vec::new();
    let mut i: usize = 0;
    assert(all.take(0) =~= Seq::<ChatMessageView>::empty());
    assert(out.deep_view() =~= Seq::<WebMessageDtoView>::empty());
    while i < history.len()
        invariant
            all == history.deep_view(),
            i <= history@.len(),
            out.deep_view() == dtos_of(
                all.take(i as int),
                since,
                st@.offers,
                st@.download_dir,
                st@.system,
            ),
            forall|k: int|
                0 <= k < out@.len() ==> exists|j: int|
                    0 <= j < history@.len() && (#[trigger] history@[j]).id == (
                    #[trigger] out@[k]).id && history@[j].outgoing == out@[k].outgoing
                        && history@[j].created_at == out@[k].created_at,
        decreases history@.len() - i,
    {
        let m = &history[i];
        proof {
            assert(all[i as int] == m.deep_view());
            assert(all.take(i + 1).drop_last() =~= all.take(i as int));
            assert(all.take(i + 1).last() == all[i as int]);
        }
        if m.id > since {
            let ghost before = out.deep_view();
            let ghost raw = out@;
            let dto = make_dto(m, &st.offers, st.download_dir.as_str(), st.system);
            out.push(dto);
            assert(out.deep_view() =~= before.push(dto.deep_view()));
            assert forall|k: int| 0 <= k < out@.len() implies exists|j: int|
                0 <= j < history@.len() && (#[trigger] history@[j]).id == (#[trigger] out@[k]).id
                    && history@[j].outgoing == out@[k].outgoing && history@[j].created_at
                    == out@[k].created_at by {
                if k < raw.len() {
                    assert(out@[k] == raw[k]);
                } else {
                    assert(history@[i as int].id == out@[k].id);
                }
            }
        }
        i = i + 1;
    }
    assert(all.take(i as int) =~= all);
    out
}

/// A text from a browser, for the history.
pub fn message(body: &WebTextBody, now: i64) -> (r: Result<ChatMessage, Reply>)
    ensures
        match r {
            Ok(m) => text::trimmed(body.text@).len() > 0 && m.deep_view() == server::text_message(
                0,
                WEB_PEER_ID@,
                false,
                text::trimmed(body.text@),
                now,
            ),
            Err(e) => text::trimmed(body.text@).len() == 0 && e.deep_view() == (ReplyView {
                code: 400,
                text: "空消息"@,
            }),
        },
{
    let t = trim(body.text.as_str());
    let n = chars_of(t.as_str());
    if n.len() == 0 {
        return Err(Reply { code: 400, text: "空消息".to_owned() });
    }
    Ok(make_text_message(0, WEB_PEER_ID, false, t.as_str(), now))
}

// ---------------------------------------------------------------------------
// Uploads of a browser
// ---------------------------------------------------------------------------

/// Whether a segment of an upload path is taken: not empty, neither `.` nor
/// `..`, and without a colon.
pub open spec fn is_kept(s: Seq<char>) -> bool {
    s.len() > 0 && s != seq!['.'] && s != seq!['.', '.'] && !text::has_char(s, ':')
}

pub open spec fn kept_segments(ps: Seq<Seq<char>>) -> Seq<Seq<char>>
    decreases ps.len(),
{
    if ps.len() == 0 {
        Seq::empty()
    } else {
        let head = kept_segments(ps.drop_last());
        if is_kept(ps.last()) {
            head.push(ps.last())
        } else {
            head
        }
    }
}

pub open spec fn upload_name(p: UploadParamsView) -> Seq<char> {
    match p.name {
        Some(n) => n,
        None => "file"@,
    }
}

/// The segments of where an upload goes; a backslash counts as a slash.
pub open spec fn upload_segments(p: UploadParamsView) -> Seq<Seq<char>> {
    let rel = match p.rel {
        Some(r) => r,
        None => upload_name(p),
    };
    kept_segments(text::pieces(text::with_char_replaced(rel, '\\', "/"@), '/', '/'))
}

/// Where an upload goes.
pub open spec fn upload_target(
    p: UploadParamsView,
    download_dir: Seq<char>,
    sys: System,
) -> Seq<char> {
    paths::joined_path(upload_root(download_dir, sys), text::joined(upload_segments(p), '/'), sys)
}

fn keeps(s: &str) -> (r: bool)
    ensures
        r == is_kept(s@),
{
    let v = chars_of(s);
    proof {
        paths::lemma_dot_text(v@);
    }
    v.len() > 0 && !(v.len() == 1 && v[0] == '.') && !(v.len() == 2 && v[0] == '.' && v[1] == '.')
        && !contains_char(s, ':')
}

fn keep_segments(ps: &Vec<String>) -> (r: Vec<String>)
    ensures
        r.deep_view() == kept_segments(ps.deep_view()),
{
    let ghost all = ps.deep_view();
    let mut out: Vec<String> = Vec::new();
    let mut i: usize = 0;
    assert(all.take(0) =~= Seq::<Seq<char>>::empty());
    assert(out.deep_view() =~= Seq::<Seq<char>>::empty());
    while i < ps.len()
        invariant
            all == ps.deep_view(),
            i <= ps@.len(),
            out.deep_view() == kept_segments(all.take(i as int)),
        decreases ps@.len() - i,
    {
        proof {
            assert(all[i as int] == ps@[i as int]@);
            assert(all.take(i + 1).drop_last() =~= all.take(i as int));
            assert(all.take(i + 1).last() == all[i as int]);
        }
        if keeps(ps[i].as_str()) {
            let ghost before = out.deep_view();
            out.push(ps[i].clone());
            assert(out.deep_view() =~= before.push(all[i as int]));
        }
        i = i + 1;
    }
    assert(all.take(i as int) =~= all);
    out
}

/// Where an upload goes, or why it is refused.
pub fn upload(params: &UploadParams, download_dir: &str, sys: System) -> (r: Result<String, Reply>)
    ensures
        match r {
            Ok(p) => upload_segments(params.deep_view()).len() > 0 && p@ == upload_target(
                params.deep_view(),
                download_dir@,
                sys,
            ),
            Err(e) => upload_segments(params.deep_view()).len() == 0 && e.deep_view() == (
            ReplyView { code: 400, text: "非法路径"@ }),
        },
{
    let rel = match &params.rel {
        Some(r) => r.clone(),
        None => match &params.name {
            Some(n) => n.clone(),
            None => "file".to_owned(),
        },
    };
    let slashed = replace_char(rel.as_str(), '\\', "/");
    let v = chars_of(slashed.as_str());
    assert(v@.skip(0) =~= v@);
    let ps = split(&v, 0, '/', '/');
    let segs = keep_segments(&ps);
    assert(segs.deep_view().len() == segs@.len());
    if segs.len() == 0 {
        return Err(Reply { code: 400, text: "非法路径".to_owned() });
    }
    let below = join(&segs, '/');
    let base = join_path(download_dir, WEB_UPLOAD_DIR, sys);
    Ok(join_path(base.as_str(), below.as_str(), sys))
}

/// The last number that the name of an upload may get.
pub const LAST_UPLOAD_NUMBER: u64 = 9998;

/// Where an upload is saved: where it wants to go, or under the first numbered
/// name that is free.
pub fn free_upload_path<F: Fn(&str) -> bool>(wanted: &str, sys: System, occupied: F) -> (r: Result<
    String,
    Reply,
>)
    requires
        forall|s: &str| call_requires(occupied, (s,)),
    ensures
        match r {
            Ok(q) => exists|k: nat|
                #![trigger server::candidate(wanted@, "f"@, k, sys)]
                k <= LAST_UPLOAD_NUMBER && q@ == server::candidate(wanted@, "f"@, k, sys)
                    && server::told(occupied, q@, false) && forall|j: nat|
                    j < k ==> server::told(
                        occupied,
                        #[trigger] server::candidate(wanted@, "f"@, j, sys),
                        true,
                    ),
            Err(e) => e.deep_view() == (ReplyView { code: 409, text: "同名文件过多"@ }) && forall|j: nat|
                j <= LAST_UPLOAD_NUMBER ==> server::told(
                    occupied,
                    #[trigger] server::candidate(wanted@, "f"@, j, sys),
                    true,
                ),
        },
{
    match free_path(wanted, "f", LAST_UPLOAD_NUMBER, sys, occupied) {
        Some(q) => Ok(q),
        None => Err(Reply { code: 409, text: "同名文件过多".to_owned() }),
    }
}

proof fn lemma_kept_segments(ps: Seq<Seq<char>>)
    requires
        forall|i: int|
            0 <= i < ps.len() ==> !text::has_char(#[trigger] ps[i], '/') && !text::has_char(
                ps[i],
                '\\',
            ),
    ensures
        forall|i: int|
            0 <= i < kept_segments(ps).len() ==> is_kept(#[trigger] kept_segments(ps)[i])
                && !text::has_char(kept_segments(ps)[i], '/') && !text::has_char(
                kept_segments(ps)[i],
                '\\',
            ),
    decreases ps.len(),
{
    if ps.len() > 0 {
        let t = ps.drop_last();
        assert forall|i: int| 0 <= i < t.len() implies !text::has_char(#[trigger] t[i], '/')
            && !text::has_char(t[i], '\\') by {
            assert(t[i] == ps[i]);
        }
        lemma_kept_segments(t);
        let h = kept_segments(t);
        let k = kept_segments(ps);
        assert(ps.last() == ps[ps.len() - 1]);
        assert forall|i: int| 0 <= i < k.len() implies is_kept(#[trigger] k[i])
            && !text::has_char(k[i], '/') && !text::has_char(k[i], '\\') by {
            if i < h.len() {
                assert(k[i] == h[i]);
            }
        }
    }
}

/// An upload never leaves the directory for uploads, whatever path the
/// browser sends. Left out are directories like `\\`, which become a share only
/// by what is appended.
pub proof fn law_upload_stays_below(p: UploadParamsView, download_dir: Seq<char>, sys: System)
    requires
        upload_segments(p).len() > 0,
        paths::has_share(upload_target(p, download_dir, sys), sys) ==> paths::has_share(
            upload_root(download_dir, sys),
            sys,
        ),
    ensures
        paths::is_safe_relative(text::joined(upload_segments(p), '/'), sys),
        paths::lies_in(upload_target(p, download_dir, sys), upload_root(download_dir, sys), sys),
{
    let rel = match p.rel {
        Some(r) => r,
        None => upload_name(p),
    };
    reveal_strlit("/");
    let s = text::with_char_replaced(rel, '\\', "/"@);
    text::lemma_replaced_char_is_gone(rel, '\\', "/"@);
    let ps = text::pieces(s, '/', '/');
    paths::lemma_pieces_are_plain(s, '/', '/');
    paths::lemma_pieces_lack(s, '/', '/', '\\');
    lemma_kept_segments(ps);
    let segs = upload_segments(p);
    let below = text::joined(segs, '/');
    paths::lemma_pieces_of_joined(segs, '/', paths::sep_of(sys));
    let up = seq!['.', '.'];
    assert(!paths::parts(below, sys).contains(up)) by {
        if segs.contains(up) {
            let i = choose|i: int| 0 <= i < segs.len() && segs[i] == up;
            assert(is_kept(segs[i]));
        }
    }
    paths::lemma_joined_start(segs, '/');
    assert(is_kept(segs[0]));
    let first = segs[0];
    assert(below.take(first.len() as int) =~= first);
    assert(below[0] == first[0]);
    if below.len() > 1 {
        if first.len() > 1 {
            assert(below[1] == first[1]);
        } else {
            assert(below[1] != ':') by {
                paths::lemma_joined_second(segs, '/');
            }
        }
    }
    paths::law_safe_relative_stays_below(upload_root(download_dir, sys), below, sys);
    let c = paths::components(upload_target(p, download_dir, sys), sys);
    let d = paths::components(upload_root(download_dir, sys), sys);
    assert(c.subrange(0, d.len() as int) =~= c.take(d.len() as int));
}

/// How much of an upload was written after a chunk, unless it grows too large.
pub fn upload_chunk(written: u64, len: u64) -> (r: Result<u64, Reply>)
    requires
        written <= WEB_UPLOAD_MAX,
    ensures
        match r {
            Ok(n) => written + len <= WEB_UPLOAD_MAX && n == written + len,
            Err(e) => written + len > WEB_UPLOAD_MAX && e.deep_view() == (ReplyView {
                code: 413,
                text: "文件过大"@,
            }),
        },
{
    if len > WEB_UPLOAD_MAX - written {
        return Err(Reply { code: 413, text: "文件过大".to_owned() });
    }
    Ok(written + len)
}

/// The name that an upload was saved under.
pub open spec fn saved_name(target: Seq<char>, p: UploadParamsView, sys: System) -> Seq<char> {
    match paths::name_of(paths::components(target, sys)) {
        Some(n) => n,
        None => upload_name(p),
    }
}

/// The message of an upload, before the history numbers it.
pub open spec fn upload_message(
    target: Seq<char>,
    p: UploadParamsView,
    written: u64,
    tid: Seq<char>,
    now: i64,
    sys: System,
) -> ChatMessageView {
    ChatMessageView {
        id: 0,
        peer_id: WEB_PEER_ID@,
        outgoing: false,
        kind: MessageKindView::File {
            name: saved_name(target, p, sys),
            size: written,
            saved_path: Some(target),
            transfer_id: Some(tid),
            file_id: None,
        },
        created_at: now,
    }
}

/// The message of an upload that was saved. An upload that belongs to no
/// batch gets a random id.
pub fn uploaded(
    target: &str,
    params: &UploadParams,
    written: u64,
    now: i64,
    sys: System,
) -> (r: ChatMessage)
    ensures
        match params.batch {
            Some(b) => r.deep_view() == upload_message(
                target@,
                params.deep_view(),
                written,
                b@,
                now,
                sys,
            ),
            None => exists|tid: Seq<char>|
                ids::is_uuid_text(tid) && r.deep_view() == #[trigger] upload_message(
                    target@,
                    params.deep_view(),
                    written,
                    tid,
                    now,
                    sys,
                ),
        },
{
    let name = match file_name(target, sys) {
        Some(n) => n,
        None => match &params.name {
            Some(n) => n.clone(),
            None => "file".to_owned(),
        },
    };
    let tid = match &params.batch {
        Some(b) => b.clone(),
        None => new_id(),
    };
    let ghost t = tid@;
    let r = ChatMessage {
        id: 0,
        peer_id: WEB_PEER_ID.to_owned(),
        outgoing: false,
        kind: MessageKind::File {
            name,
            size: written,
            saved_path: Some(target.to_owned()),
            transfer_id: Some(tid),
            file_id: None,
        },
        created_at: now,
    };
    assert(r.deep_view() == upload_message(target@, params.deep_view(), written, t, now, sys));
    r
}

// ---------------------------------------------------------------------------
// Downloads
// ---------------------------------------------------------------------------

pub open spec fn offer_dto(f: WebOfferView) -> WebOfferDtoView {
    WebOfferDtoView { id: f.id, name: f.name, size: f.size, created_at: f.created_at }
}

/// What is on offer.
pub fn list(st: &ServerState) -> (r: Vec<WebOfferDto>)
    ensures
        r.deep_view() == Seq::new(st@.offers.len(), |i: int| offer_dto(st@.offers[i])),
{
    let ghost all = st@.offers;
    let ghost wanted = Seq::new(all.len(), |i: int| offer_dto(all[i]));
    let mut out: Vec<WebOfferDto> = Vec::new();
    let mut i: usize = 0;
    while i < st.offers.len()
        invariant
            all == st@.offers,
            wanted == Seq::new(all.len(), |i: int| offer_dto(all[i])),
            i <= st.offers@.len(),
            out.deep_view() =~= wanted.take(i as int),
        decreases st.offers@.len() - i,
    {
        let f = &st.offers[i];
        assert(all[i as int] == f.deep_view());
        let ghost before = out.deep_view();
        out.push(
            WebOfferDto {
                id: f.id.clone(),
                name: f.name.clone(),
                size: f.size,
                created_at: f.created_at,
            },
        );
        assert(out.deep_view() =~= before.push(wanted[i as int]));
        i = i + 1;
    }
    assert(out.deep_view() =~= wanted);
    out
}

/// The first offer with this id.
pub open spec fn offer_of(offers: Seq<WebOfferView>, id: Seq<char>) -> Option<WebOfferView>
    decreases offers.len(),
{
    if offers.len() == 0 {
        None
    } else if offers[0].id == id {
        Some(offers[0])
    } else {
        offer_of(offers.skip(1), id)
    }
}

/// Name and path of a file that a browser wants.
pub fn download(st: &ServerState, id: &str) -> (r: Result<(String, String), Reply>)
    ensures
        match r {
            Ok((name, path)) => offer_of(st@.offers, id@) is Some && name@ == offer_of(
                st@.offers,
                id@,
            )->Some_0.name && path@ == offer_of(st@.offers, id@)->Some_0.path,
            Err(e) => offer_of(st@.offers, id@) is None && e.deep_view() == (ReplyView {
                code: 404,
                text: "文件不存在或已被移除"@,
            }),
        },
{
    let ghost all = st@.offers;
    let mut i: usize = 0;
    assert(all.skip(0) =~= all);
    while i < st.offers.len()
        invariant
            all == st@.offers,
            i <= st.offers@.len(),
            offer_of(all, id@) == offer_of(all.skip(i as int), id@),
        decreases st.offers@.len() - i,
    {
        let f = &st.offers[i];
        assert(all[i as int] == f.deep_view());
        assert(all.skip(i as int)[0] == all[i as int]);
        assert(all.skip(i as int).skip(1) =~= all.skip(i + 1));
        if same_text(f.id.as_str(), id) {
            return Ok((f.name.clone(), f.path.clone()));
        }
        i = i + 1;
    }
    Err(Reply { code: 404, text: "文件不存在或已被移除".to_owned() })
}

pub open spec fn without_offer(offers: Seq<WebOfferView>, id: Seq<char>) -> Seq<WebOfferView>
    decreases offers.len(),
{
    if offers.len() == 0 {
        Seq::empty()
    } else {
        let head = without_offer(offers.drop_last(), id);
        if offers.last().id == id {
            head
        } else {
            head.push(offers.last())
        }
    }
}

proof fn lemma_without_offer(offers: Seq<WebOfferView>, id: Seq<char>)
    ensures
        without_offer(offers, id).len() <= offers.len(),
        without_offer(offers, id).len() == offers.len() <==> offer_of(offers, id) is None,
        offer_of(without_offer(offers, id), id) is None,
    decreases offers.len(),
{
    lemma_offer_of(offers, id);
    lemma_offer_of(without_offer(offers, id), id);
    if offers.len() > 0 {
        let t = offers.drop_last();
        lemma_without_offer(t, id);
        lemma_offer_of(t, id);
        lemma_offer_of(without_offer(t, id), id);
        let h = without_offer(t, id);
        let k = without_offer(offers, id);
        assert(offers.last() == offers[offers.len() - 1]);
        if offers.last().id != id {
            assert forall|i: int| 0 <= i < offers.len() && (
            #[trigger] offers[i]).id == id implies i < t.len() && t[i].id == id by {}
            assert forall|i: int| 0 <= i < t.len() && (
            #[trigger] t[i]).id == id implies offers[i].id == id by {}
            assert forall|i: int| 0 <= i < k.len() implies (#[trigger] k[i]).id != id by {
                if i < h.len() {
                    assert(k[i] == h[i]);
                }
            }
        }
    }
}

/// An offer is found exactly where some offer has the id.
proof fn lemma_offer_of(offers: Seq<WebOfferView>, id: Seq<char>)
    ensures
        offer_of(offers, id) is None <==> forall|i: int|
            0 <= i < offers.len() ==> (#[trigger] offers[i]).id != id,
    decreases offers.len(),
{
    if offers.len() > 0 && offers[0].id != id {
        let t = offers.skip(1);
        lemma_offer_of(t, id);
        if offer_of(t, id) is None {
            assert forall|i: int| 0 <= i < offers.len() implies (#[trigger] offers[i]).id != id by {
                if i > 0 {
                    assert(t[i - 1].id != id);
                }
            }
        } else {
            if forall|i: int| 0 <= i < offers.len() ==> (#[trigger] offers[i]).id != id {
                assert forall|i: int| 0 <= i < t.len() implies (#[trigger] t[i]).id != id by {
                    assert(offers[i + 1].id != id);
                }
            }
        }
    }
}

/// Takes a file off the list.
pub fn remove(st: &mut ServerState, id: &str) -> (r: Result<(), Reply>)
    requires
        old(st).wf(),
    ensures
        final(st).wf(),
        final(st)@ == (ServerView { offers: without_offer(old(st)@.offers, id@), ..old(st)@ }),
        match r {
            Ok(()) => offer_of(old(st)@.offers, id@) is Some,
            Err(e) => offer_of(old(st)@.offers, id@) is None && e.deep_view() == (ReplyView {
                code: 404,
                text: "不存在"@,
            }),
        },
{
    let ghost all = st@.offers;
    let mut out: Vec<WebOffer> = Vec::new();
    let mut i: usize = 0;
    assert(all.take(0) =~= Seq::<WebOfferView>::empty());
    assert(out.deep_view() =~= Seq::<WebOfferView>::empty());
    while i < st.offers.len()
        invariant
            all == st@.offers,
            i <= st.offers@.len(),
            out.deep_view() == without_offer(all.take(i as int), id@),
        decreases st.offers@.len() - i,
    {
        let f = &st.offers[i];
        proof {
            assert(all[i as int] == f.deep_view());
            assert(all.take(i + 1).drop_last() =~= all.take(i as int));
            assert(all.take(i + 1).last() == all[i as int]);
        }
        if !same_text(f.id.as_str(), id) {
            let ghost before = out.deep_view();
            out.push(f.clone());
            assert(out.deep_view() =~= before.push(all[i as int]));
        }
        i = i + 1;
    }
    assert(all.take(i as int) =~= all);
    proof {
        lemma_without_offer(all, id@);
        assert(out.deep_view().len() == out@.len());
    }
    let gone = out.len() < st.offers.len();
    st.offers = out;
    if gone {
        Ok(())
    } else {
        Err(Reply { code: 404, text: "不存在".to_owned() })
    }
}

/// A file that was taken off the list can no longer be downloaded.
pub proof fn law_removed_offer_is_gone(offers: Seq<WebOfferView>, id: Seq<char>)
    ensures
        offer_of(without_offer(offers, id), id) is None,
{
    lemma_without_offer(offers, id);
}

proof fn lemma_offer_behind(offers: Seq<WebOfferView>, f: WebOfferView, id: Seq<char>)
    ensures
        offer_of(offers.push(f), id) == (match offer_of(offers, id) {
            Some(g) => Some(g),
            None => if f.id == id {
                Some(f)
            } else {
                None
            },
        }),
    decreases offers.len(),
{
    let all = offers.push(f);
    if offers.len() == 0 {
        assert(all.skip(1) =~= Seq::<WebOfferView>::empty());
        assert(all[0] == f);
        assert(offer_of(all.skip(1), id) is None);
    } else {
        assert(all[0] == offers[0]);
        assert(all.skip(1) =~= offers.skip(1).push(f));
        lemma_offer_behind(offers.skip(1), f, id);
    }
}

/// Taking a file off the list leaves every other file as it was.
pub proof fn law_other_offers_stay(offers: Seq<WebOfferView>, id: Seq<char>, other: Seq<char>)
    requires
        other != id,
    ensures
        offer_of(without_offer(offers, id), other) == offer_of(offers, other),
    decreases offers.len(),
{
    if offers.len() > 0 {
        let t = offers.drop_last();
        law_other_offers_stay(t, id, other);
        assert(t.push(offers.last()) =~= offers);
        lemma_offer_behind(t, offers.last(), other);
        lemma_offer_behind(without_offer(t, id), offers.last(), other);
    }
}

// ---------------------------------------------------------------------------
// File names in headers
// ---------------------------------------------------------------------------

pub open spec fn is_unreserved(b: u8) -> bool {
    ||| 65 <= b <= 90
    ||| 97 <= b <= 122
    ||| 48 <= b <= 57
    ||| b == 45
    ||| b == 95
    ||| b == 46
    ||| b == 126
}

pub open spec fn upper_hex(d: int) -> char {
    if d < 10 {
        (48 + d) as char
    } else {
        (55 + d) as char
    }
}

pub open spec fn encoded_byte(b: u8) -> Seq<char> {
    if is_unreserved(b) {
        seq![b as char]
    } else {
        seq!['%', upper_hex(b as int / 16), upper_hex(b as int % 16)]
    }
}

/// Bytes in percent encoding.
pub open spec fn percent_encoded(bytes: Seq<u8>) -> Seq<char>
    decreases bytes.len(),
{
    if bytes.len() == 0 {
        Seq::empty()
    } else {
        percent_encoded(bytes.drop_last()) + encoded_byte(bytes.last())
    }
}

fn hex_digit(d: u8) -> (r: char)
    requires
        d < 16,
    ensures
        r == upper_hex(d as int),
{
    if d < 10 {
        (48 + d) as char
    } else {
        (55 + d) as char
    }
}

/// The UTF-8 bytes of a text in percent encoding.
pub fn percent_encode(s: &str) -> (r: String)
    ensures
        r@ == percent_encoded(vstd::utf8::encode_utf8(s@)),
{
    let bytes = s.as_bytes();
    let mut out = String::new();
    let mut i: usize = 0;
    assert(bytes@.take(0) =~= Seq::<u8>::empty());
    while i < bytes.len()
        invariant
            i <= bytes@.len(),
            out@ == percent_encoded(bytes@.take(i as int)),
        decreases bytes@.len() - i,
    {
        let b: u8 = bytes[i];
        proof {
            assert(bytes@.take(i + 1).drop_last() =~= bytes@.take(i as int));
            assert(bytes@.take(i + 1).last() == b);
        }
        let ghost before = out@;
        if (65 <= b && b <= 90) || (97 <= b && b <= 122) || (48 <= b && b <= 57) || b == 45 || b
            == 95 || b == 46 || b == 126 {
            out.push(b as char);
            assert(out@ =~= before + seq![b as char]);
        } else {
            out.push('%');
            out.push(hex_digit(b / 16));
            out.push(hex_digit(b % 16));
            assert(out@ =~= before + encoded_byte(b));
        }
        i = i + 1;
    }
    assert(bytes@.take(i as int) =~= bytes@);
    out
}

pub open spec fn hex_value(c: char) -> int {
    if '0' <= c && c <= '9' {
        c as int - 48
    } else {
        c as int - 55
    }
}

/// The bytes that a percent encoding stands for.
pub open spec fn percent_decoded(s: Seq<char>) -> Seq<u8>
    decreases s.len(),
{
    if s.len() == 0 {
        Seq::empty()
    } else if s.len() >= 3 && s[s.len() - 3] == '%' {
        percent_decoded(s.take(s.len() - 3)).push(
            (16 * hex_value(s[s.len() - 2]) + hex_value(s[s.len() - 1])) as u8,
        )
    } else {
        percent_decoded(s.drop_last()).push(s.last() as u8)
    }
}

/// Percent encoding goes piece by piece.
pub proof fn law_percent_encoding_goes_piece_by_piece(a: Seq<u8>, b: Seq<u8>)
    ensures
        percent_encoded(a + b) == percent_encoded(a) + percent_encoded(b),
    decreases b.len(),
{
    if b.len() == 0 {
        assert(a + b =~= a);
        assert(percent_encoded(a) + percent_encoded(b) =~= percent_encoded(a));
    } else {
        law_percent_encoding_goes_piece_by_piece(a, b.drop_last());
        assert((a + b).drop_last() =~= a + b.drop_last());
        assert(percent_encoded(a) + (percent_encoded(b.drop_last()) + encoded_byte(b.last()))
            =~= percent_encoded(a) + percent_encoded(b.drop_last()) + encoded_byte(b.last()));
    }
}

/// Decoding an encoded name gives its bytes back, and the encoding holds only
/// characters that a header can carry.
pub proof fn law_percent_encoding_reads_back(bytes: Seq<u8>)
    ensures
        percent_decoded(percent_encoded(bytes)) == bytes,
        forall|i: int|
            0 <= i < percent_encoded(bytes).len() ==> {
                let c = #[trigger] percent_encoded(bytes)[i];
                c == '%' || (c as u32 <= 126 && is_unreserved(c as u8))
            },
    decreases bytes.len(),
{
    if bytes.len() > 0 {
        let h = bytes.drop_last();
        let b = bytes.last();
        law_percent_encoding_reads_back(h);
        let e = percent_encoded(h);
        let s = percent_encoded(bytes);
        assert forall|i: int| 0 <= i < s.len() implies {
            let c = #[trigger] s[i];
            c == '%' || (c as u32 <= 126 && is_unreserved(c as u8))
        } by {
            if i < e.len() {
                assert(s[i] == e[i]);
            } else {
                assert(s[i] == encoded_byte(b)[i - e.len()]);
            }
        }
        if is_unreserved(b) {
            assert(s =~= e.push(b as char));
            assert(s.drop_last() =~= e);
            assert((b as char) as u8 == b);
            if s.len() >= 3 && s[s.len() - 3] == '%' {
                lemma_percent_has_digits(h);
                assert(e[e.len() - 2] == '%');
            }
        } else {
            assert(s.take(s.len() - 3) =~= e);
            assert(s[s.len() - 3] == '%');
            let hi = b as int / 16;
            let lo = b as int % 16;
            assert(hex_value(upper_hex(hi)) == hi);
            assert(hex_value(upper_hex(lo)) == lo);
        }
        assert(percent_decoded(s) =~= bytes);
    }
}

/// A percent sign is never among the last two characters.
proof fn lemma_percent_has_digits(bytes: Seq<u8>)
    ensures
        ({
            let e = percent_encoded(bytes);
            &&& e.len() >= 1 ==> e[e.len() - 1] != '%'
            &&& e.len() >= 2 ==> e[e.len() - 2] != '%'
        }),
    decreases bytes.len(),
{
    if bytes.len() > 0 {
        let h = bytes.drop_last();
        let b = bytes.last();
        lemma_percent_has_digits(h);
        let e = percent_encoded(h);
        let s = percent_encoded(bytes);
        if is_unreserved(b) {
            assert(s =~= e.push(b as char));
            if e.len() >= 1 {
                assert(s[s.len() - 2] == e[e.len() - 1]);
            }
        } else {
            assert(s[s.len() - 1] == upper_hex(b as int % 16));
            assert(s[s.len() - 2] == upper_hex(b as int / 16));
        }
    }
}

/// The name for browsers that know no encoding.
pub open spec fn plain_name(name: Seq<char>) -> Seq<char> {
    text::with_char_replaced(text::with_char_replaced(name, '"', "_"@), '\n', "_"@)
}

/// The header that tells a browser what to call a file.
pub open spec fn disposition_text(plain: Seq<char>, name: Seq<char>) -> Seq<char> {
    "attachment; filename=\""@ + plain + "\"; filename*=UTF-8''"@ + percent_encoded(
        vstd::utf8::encode_utf8(name),
    )
}

fn make_plain_name(name: &str) -> (r: String)
    ensures
        r@ == plain_name(name@),
{
    let a = replace_char(name, '"', "_");
    replace_char(a.as_str(), '\n', "_")
}

fn make_disposition(plain: &str, name: &str) -> (r: String)
    ensures
        r@ == disposition_text(plain@, name@),
{
    let code = percent_encode(name);
    let mut out = cat3("attachment; filename=\"", plain, "\"; filename*=UTF-8''");
    out.append(code.as_str());
    out
}

pub fn download_disposition(name: &str) -> (r: String)
    ensures
        r@ == disposition_text(plain_name(name@), name@),
{
    let plain = make_plain_name(name);
    make_disposition(plain.as_str(), name)
}

/// No name breaks out of the quotes or of the header line.
pub proof fn law_plain_name_is_quoted(name: Seq<char>)
    ensures
        !text::has_char(plain_name(name), '"'),
        !text::has_char(plain_name(name), '\n'),
{
    reveal_strlit("_");
    let a = text::with_char_replaced(name, '"', "_"@);
    text::lemma_replaced_char_is_gone(name, '"', "_"@);
    text::lemma_replaced_char_is_gone(a, '\n', "_"@);
    lemma_replaced_keeps_out(a, '\n', "_"@, '"');
}

proof fn lemma_replaced_keeps_out(s: Seq<char>, c: char, with: Seq<char>, x: char)
    requires
        !text::has_char(s, x),
        !text::has_char(with, x),
    ensures
        !text::has_char(text::with_char_replaced(s, c, with), x),
    decreases s.len(),
{
    if s.len() > 0 {
        let t = s.drop_last();
        assert forall|i: int| 0 <= i < t.len() implies t[i] != x by {
            assert(t[i] == s[i]);
        }
        lemma_replaced_keeps_out(t, c, with, x);
        let h = text::with_char_replaced(t, c, with);
        let r = text::with_char_replaced(s, c, with);
        assert(s.last() == s[s.len() - 1]);
        assert forall|i: int| 0 <= i < r.len() implies r[i] != x by {
            if i < h.len() {
                assert(r[i] == h[i]);
            } else if s.last() == c {
                assert(r[i] == with[i - h.len()]);
            }
        }
    }
}

// ---------------------------------------------------------------------------
// Whole folders
// ---------------------------------------------------------------------------

/// The files that were published together, each with where it goes.
pub open spec fn batch_files(offers: Seq<WebOfferView>, tid: Seq<char>) -> Seq<
    (Seq<char>, Seq<char>),
>
    decreases offers.len(),
{
    if offers.len() == 0 {
        Seq::empty()
    } else {
        let head = batch_files(offers.drop_last(), tid);
        if offers.last().transfer_id == tid {
            head.push((offers.last().rel, offers.last().path))
        } else {
            head
        }
    }
}

/// The name of the archive: the folder that the first file lies in.
pub open spec fn archive_name(rel: Seq<char>) -> Seq<char> {
    let first = text::pieces(rel, '/', '/')[0];
    if first.len() > 0 {
        first
    } else {
        "LocalTransfer"@
    }
}

/// What goes into the archive of what was published at once, and its name.
pub fn download_zip(st: &ServerState, tid: &str) -> (r: Result<
    (String, Vec<(String, String)>),
    Reply,
>)
    ensures
        match r {
            Ok((folder, files)) => {
                &&& files.deep_view() == batch_files(st@.offers, tid@)
                &&& files@.len() > 0
                &&& folder@ == archive_name(files@[0].0@)
            },
            Err(e) => batch_files(st@.offers, tid@).len() == 0 && e.deep_view() == (ReplyView {
                code: 404,
                text: "没有可下载的文件（可能已失效）"@,
            }),
        },
{
    let ghost all = st@.offers;
    let mut out: Vec<(String, String)> = Vec::new();
    let mut i: usize = 0;
    assert(all.take(0) =~= Seq::<WebOfferView>::empty());
    assert(out.deep_view() =~= Seq::<(Seq<char>, Seq<char>)>::empty());
    while i < st.offers.len()
        invariant
            all == st@.offers,
            i <= st.offers@.len(),
            out.deep_view() == batch_files(all.take(i as int), tid@),
        decreases st.offers@.len() - i,
    {
        let f = &st.offers[i];
        proof {
            assert(all[i as int] == f.deep_view());
            assert(all.take(i + 1).drop_last() =~= all.take(i as int));
            assert(all.take(i + 1).last() == all[i as int]);
        }
        if same_text(f.transfer_id.as_str(), tid) {
            let ghost before = out.deep_view();
            out.push((f.rel.clone(), f.path.clone()));
            assert(out.deep_view() =~= before.push((f.rel@, f.path@)));
        }
        i = i + 1;
    }
    assert(all.take(i as int) =~= all);
    assert(out.deep_view().len() == out@.len());
    if out.len() == 0 {
        return Err(
            Reply { code: 404, text: "没有可下载的文件（可能已失效）".to_owned() },
        );
    }
    let v = chars_of(out[0].0.as_str());
    assert(v@.skip(0) =~= v@);
    let ps = split(&v, 0, '/', '/');
    assert(ps.deep_view()[0] == ps@[0]@);
    let first = chars_of(ps[0].as_str());
    let folder = if first.len() > 0 {
        ps[0].clone()
    } else {
        "LocalTransfer".to_owned()
    };
    Ok((folder, out))
}

pub fn zip_disposition(folder: &str) -> (r: String)
    ensures
        r@ == disposition_text(plain_name(folder@) + ".zip"@, folder@ + ".zip"@),
{
    let p = make_plain_name(folder);
    let plain = cat(p.as_str(), ".zip");
    let name = cat(folder, ".zip");
    make_disposition(plain.as_str(), name.as_str())
}

/// The messages to delete, each by its number; none where a browser names
/// none.
pub fn delete_messages(body: &DeleteMessagesBody) -> (r: Option<Vec<i64>>)
    ensures
        match r {
            Some(ids) => body.ids@.len() > 0 && ids@ == body.ids@,
            None => body.ids@.len() == 0,
        },
{
    if body.ids.len() == 0 {
        None
    } else {
        let ids = body.ids.clone();
        assert(ids@ =~= body.ids@);
        Some(ids)
    }
}

// ---------------------------------------------------------------------------
// Laws of what browsers see and send
// ---------------------------------------------------------------------------

/// What a browser gets of two stretches of the history is what it gets of the
/// first and then of the second; of one message it gets one entry where the
/// message is newer than what it has, and nothing where it is not.
pub proof fn law_browser_gets_every_new_message(
    a: Seq<ChatMessageView>,
    b: Seq<ChatMessageView>,
    m: ChatMessageView,
    since: i64,
    offers: Seq<WebOfferView>,
    download_dir: Seq<char>,
    sys: System,
)
    ensures
        dtos_of(a + b, since, offers, download_dir, sys) == dtos_of(
            a,
            since,
            offers,
            download_dir,
            sys,
        ) + dtos_of(b, since, offers, download_dir, sys),
        m.id > since ==> dtos_of(seq![m], since, offers, download_dir, sys) == seq![
            dto_of(m, offers, download_dir, sys),
        ],
        m.id <= since ==> dtos_of(seq![m], since, offers, download_dir, sys).len() == 0,
    decreases b.len(),
{
    let all = a + b;
    if b.len() == 0 {
        assert(all =~= a);
        assert(dtos_of(a, since, offers, download_dir, sys) + dtos_of(
            b,
            since,
            offers,
            download_dir,
            sys,
        ) =~= dtos_of(a, since, offers, download_dir, sys));
    } else {
        law_browser_gets_every_new_message(
            a,
            b.drop_last(),
            m,
            since,
            offers,
            download_dir,
            sys,
        );
        assert(all.drop_last() =~= a + b.drop_last());
        assert(all.last() == b.last());
        assert(dtos_of(all, since, offers, download_dir, sys) =~= dtos_of(
            a,
            since,
            offers,
            download_dir,
            sys,
        ) + dtos_of(b, since, offers, download_dir, sys));
    }
    assert(seq![m].drop_last() =~= Seq::<ChatMessageView>::empty());
    assert(seq![m].last() == m);
    assert(dtos_of(Seq::<ChatMessageView>::empty(), since, offers, download_dir, sys) =~= Seq::<
        WebMessageDtoView,
    >::empty());
    if m.id > since {
        assert(dtos_of(seq![m], since, offers, download_dir, sys) =~= seq![
            dto_of(m, offers, download_dir, sys),
        ]);
    }
}

/// Every entry that a browser gets has the number, the time and the direction
/// of the message that it stands for, and says what the message says.
pub proof fn law_entry_stands_for_its_message(
    m: ChatMessageView,
    offers: Seq<WebOfferView>,
    download_dir: Seq<char>,
    sys: System,
)
    ensures
        ({
            let d = dto_of(m, offers, download_dir, sys);
            &&& d.id == m.id
            &&& d.outgoing == m.outgoing
            &&& d.created_at == m.created_at
            &&& m.kind is Text ==> {
                &&& d.kind == "text"@
                &&& d.text == m.kind->Text_0
                &&& d.name.len() == 0 && d.size == 0
                &&& d.tid.len() == 0 && d.rel.len() == 0 && d.offer.len() == 0
            }
            &&& m.kind is File ==> {
                &&& d.kind == "file"@
                &&& d.text.len() == 0
                &&& d.name == m.kind->name
                &&& d.size == m.kind->size
                &&& m.kind->transfer_id is Some ==> d.tid == m.kind->transfer_id->Some_0
                &&& m.kind->transfer_id is None ==> d.tid.len() == 0
            }
        }),
{
}

/// Each entry stands for one message of the history, newer than what the
/// browser has, and each such message has an entry.
pub proof fn law_entries_have_their_direction(
    history: Seq<ChatMessageView>,
    since: i64,
    offers: Seq<WebOfferView>,
    download_dir: Seq<char>,
    sys: System,
    id: i64,
    outgoing: bool,
)
    ensures
        (exists|k: int|
            0 <= k < dtos_of(history, since, offers, download_dir, sys).len() && (
            #[trigger] dtos_of(history, since, offers, download_dir, sys)[k]).id == id && dtos_of(
                history,
                since,
                offers,
                download_dir,
                sys,
            )[k].outgoing == outgoing) <==> (id > since && exists|i: int|
            0 <= i < history.len() && (#[trigger] history[i]).id == id && history[i].outgoing
                == outgoing),
    decreases history.len(),
{
    if history.len() > 0 {
        let t = history.drop_last();
        let m = history.last();
        law_entries_have_their_direction(t, since, offers, download_dir, sys, id, outgoing);
        law_entry_stands_for_its_message(m, offers, download_dir, sys);
        let h = dtos_of(t, since, offers, download_dir, sys);
        let g = dtos_of(history, since, offers, download_dir, sys);
        assert(m == history[history.len() - 1]);
        if exists|k: int| 0 <= k < g.len() && (#[trigger] g[k]).id == id && g[k].outgoing
            == outgoing {
            let k = choose|k: int|
                0 <= k < g.len() && (#[trigger] g[k]).id == id && g[k].outgoing == outgoing;
            if k < h.len() {
                assert(h[k].id == id && h[k].outgoing == outgoing);
                let i = choose|i: int|
                    0 <= i < t.len() && (#[trigger] t[i]).id == id && t[i].outgoing == outgoing;
                assert(history[i] == t[i]);
            } else {
                assert(g[k] == dto_of(m, offers, download_dir, sys));
            }
        }
        if id > since && exists|i: int|
            0 <= i < history.len() && (#[trigger] history[i]).id == id && history[i].outgoing
                == outgoing {
            let i = choose|i: int|
                0 <= i < history.len() && (#[trigger] history[i]).id == id && history[i].outgoing
                    == outgoing;
            if i < t.len() {
                assert(t[i] == history[i]);
                let k = choose|k: int|
                    0 <= k < h.len() && (#[trigger] h[k]).id == id && h[k].outgoing == outgoing;
                assert(g[k] == h[k]);
            } else {
                assert(g[g.len() - 1] == dto_of(m, offers, download_dir, sys));
            }
        }
    }
}

/// Where a file that was published lies is known exactly while it is on
/// offer.
proof fn lemma_rel_of(offers: Seq<WebOfferView>, id: Seq<char>)
    ensures
        rel_of(offers, id) is Some <==> exists|i: int|
            0 <= i < offers.len() && (#[trigger] offers[i]).id == id,
        rel_of(offers, id) is Some ==> exists|i: int|
            0 <= i < offers.len() && (#[trigger] offers[i]).id == id && offers[i].rel == rel_of(
                offers,
                id,
            )->Some_0,
    decreases offers.len(),
{
    if offers.len() > 0 {
        let t = offers.drop_last();
        lemma_rel_of(t, id);
        assert(offers.last() == offers[offers.len() - 1]);
        if offers.last().id != id {
            if rel_of(t, id) is Some {
                let i = choose|i: int|
                    0 <= i < t.len() && (#[trigger] t[i]).id == id && t[i].rel == rel_of(
                        t,
                        id,
                    )->Some_0;
                assert(offers[i] == t[i]);
            }
            if exists|i: int| 0 <= i < offers.len() && (#[trigger] offers[i]).id == id {
                let i = choose|i: int| 0 <= i < offers.len() && (#[trigger] offers[i]).id == id;
                assert(t[i].id == id);
            }
        }
    }
}

/// A browser can download a file of the conversation exactly while the file is
/// on offer: the entry then names an offer that is there, by where it lies.
pub proof fn law_entry_downloads_while_on_offer(
    m: ChatMessageView,
    offers: Seq<WebOfferView>,
    download_dir: Seq<char>,
    sys: System,
)
    requires
        m.kind is File,
        m.kind->file_id is Some,
        m.kind->file_id->Some_0.len() > 0,
    ensures
        ({
            let d = dto_of(m, offers, download_dir, sys);
            let id = m.kind->file_id->Some_0;
            &&& offer_of(offers, id) is Some ==> d.offer == id
            &&& offer_of(offers, id) is None ==> d.offer.len() == 0
            &&& offer_of(offers, id) is Some ==> exists|i: int|
                0 <= i < offers.len() && (#[trigger] offers[i]).id == id && offers[i].rel == d.rel
        }),
{
    let id = m.kind->file_id->Some_0;
    lemma_rel_of(offers, id);
    lemma_offer_of(offers, id);
    if offer_of(offers, id) is Some {
        let i = choose|i: int| 0 <= i < offers.len() && (#[trigger] offers[i]).id == id;
        assert(offers[i].id == id);
    }
}

/// A file that was uploaded to here has no offer, and its message is the
/// browser's: not sent by this device, under the name and at the place where
/// it was saved, as large as it was.
pub proof fn law_upload_is_the_browsers(
    target: Seq<char>,
    p: UploadParamsView,
    written: u64,
    tid: Seq<char>,
    now: i64,
    sys: System,
)
    ensures
        ({
            let m = upload_message(target, p, written, tid, now, sys);
            &&& m.id == 0
            &&& m.peer_id == "__web__"@
            &&& !m.outgoing
            &&& m.created_at == now
            &&& m.kind is File
            &&& m.kind->size == written
            &&& m.kind->saved_path == Some(target)
            &&& m.kind->transfer_id == Some(tid)
            &&& m.kind->file_id is None
            &&& paths::name_of(paths::components(target, sys)) is Some ==> Some(m.kind->name)
                == paths::name_of(paths::components(target, sys))
        }),
{
}

/// Each file that is published is on offer under an id, with its size and
/// from where it lies, and has a message of its own that names that offer;
/// the messages are this device's, in the conversation with the browsers.
pub proof fn law_published_file_has_its_message(
    files: Seq<(FileMetaView, Seq<char>)>,
    ids: Seq<Seq<char>>,
    batch: Seq<char>,
    now: i64,
    i: int,
)
    requires
        ids.len() == files.len(),
        0 <= i < files.len(),
    ensures
        offers_of(files, ids, batch, now).len() == files.len(),
        offer_messages(files, ids, batch, now).len() == files.len(),
        ({
            let o = offers_of(files, ids, batch, now)[i];
            let m = offer_messages(files, ids, batch, now)[i];
            &&& o.id == ids[i]
            &&& o.path == files[i].1
            &&& o.name == files[i].0.name
            &&& o.rel == files[i].0.rel_path
            &&& o.size == files[i].0.size
            &&& o.created_at == now
            &&& m.peer_id == "__web__"@
            &&& m.outgoing
            &&& m.created_at == now
            &&& m.kind == (MessageKindView::File {
                name: o.name,
                size: o.size,
                saved_path: Some(o.path),
                transfer_id: Some(o.transfer_id),
                file_id: Some(o.id),
            })
            &&& o.transfer_id == batch
        }),
{
}

/// The oldest offers make room for new ones, and only where there are more
/// than five hundred.
pub proof fn law_only_the_oldest_make_room(s: Seq<WebOfferView>)
    ensures
        newest(s).len() == (if s.len() <= 500 {
            s.len()
        } else {
            500
        }),
        newest(s) == s.skip(s.len() - newest(s).len()),
{
    if s.len() <= 500 {
        assert(s.skip(0) =~= s);
    }
}

/// What a browser downloads is the offer that it names.
pub proof fn law_download_is_what_was_named(offers: Seq<WebOfferView>, id: Seq<char>)
    ensures
        offer_of(offers, id) is Some <==> exists|i: int|
            0 <= i < offers.len() && (#[trigger] offers[i]).id == id,
        offer_of(offers, id) is Some ==> offers.contains(offer_of(offers, id)->Some_0) && offer_of(
            offers,
            id,
        )->Some_0.id == id,
    decreases offers.len(),
{
    lemma_offer_of(offers, id);
    if offers.len() > 0 {
        if offers[0].id == id {
            assert(offers.contains(offers[0]));
        } else {
            let t = offers.skip(1);
            law_download_is_what_was_named(t, id);
            if offer_of(t, id) is Some {
                let f = offer_of(t, id)->Some_0;
                let k = choose|k: int| 0 <= k < t.len() && t[k] == f;
                assert(offers[k + 1] == f);
            }
        }
    }
}

/// The list shows of an offer its id, by which it is downloaded, and its name,
/// size and time.
pub proof fn law_list_shows_the_offer(f: WebOfferView)
    ensures
        offer_dto(f).id == f.id,
        offer_dto(f).name == f.name,
        offer_dto(f).size == f.size,
        offer_dto(f).created_at == f.created_at,
{
}

/// An archive holds exactly the files that were published together, in their
/// order, each by where it lay in what was published and by where it is read
/// from.
pub proof fn law_archive_holds_the_batch(
    a: Seq<WebOfferView>,
    b: Seq<WebOfferView>,
    f: WebOfferView,
    tid: Seq<char>,
)
    ensures
        batch_files(a + b, tid) == batch_files(a, tid) + batch_files(b, tid),
        f.transfer_id == tid ==> batch_files(seq![f], tid) == seq![(f.rel, f.path)],
        f.transfer_id != tid ==> batch_files(seq![f], tid).len() == 0,
    decreases b.len(),
{
    let all = a + b;
    if b.len() == 0 {
        assert(all =~= a);
        assert(batch_files(a, tid) + batch_files(b, tid) =~= batch_files(a, tid));
    } else {
        law_archive_holds_the_batch(a, b.drop_last(), f, tid);
        assert(all.drop_last() =~= a + b.drop_last());
        assert(all.last() == b.last());
        assert(batch_files(all, tid) =~= batch_files(a, tid) + batch_files(b, tid));
    }
    assert(seq![f].drop_last() =~= Seq::<WebOfferView>::empty());
    assert(seq![f].last() == f);
    assert(batch_files(Seq::<WebOfferView>::empty(), tid) =~= Seq::<
        (Seq<char>, Seq<char>),
    >::empty());
    if f.transfer_id == tid {
        assert(batch_files(seq![f], tid) =~= seq![(f.rel, f.path)]);
    }
}

/// What was just published at once can be fetched as one archive: all its
/// files, where they still fit on the list.
pub proof fn law_published_batch_is_an_archive(
    before: Seq<WebOfferView>,
    files: Seq<(FileMetaView, Seq<char>)>,
    ids: Seq<Seq<char>>,
    batch: Seq<char>,
    now: i64,
)
    requires
        ids.len() == files.len(),
        files.len() <= 500,
        forall|i: int| 0 <= i < before.len() ==> (#[trigger] before[i]).transfer_id != batch,
    ensures
        batch_files(newest(before + offers_of(files, ids, batch, now)), batch) == Seq::new(
            files.len(),
            |i: int| (files[i].0.rel_path, files[i].1),
        ),
{
    let mine = offers_of(files, ids, batch, now);
    let all = before + mine;
    law_only_the_oldest_make_room(all);
    let kept = newest(all);
    let old = kept.take(kept.len() - files.len());
    assert(kept =~= old + mine);
    assert forall|i: int| 0 <= i < old.len() implies (#[trigger] old[i]).transfer_id != batch by {
        assert(old[i] == before[before.len() - old.len() + i]);
    }
    lemma_no_batch_files(old, batch);
    if files.len() > 0 {
        law_archive_holds_the_batch(old, mine, mine[0], batch);
    } else {
        assert(mine =~= Seq::<WebOfferView>::empty());
        assert(kept =~= old);
    }
    lemma_all_batch_files(mine, batch);
    assert(batch_files(kept, batch) =~= Seq::new(
        files.len(),
        |i: int| (files[i].0.rel_path, files[i].1),
    ));
}

proof fn lemma_no_batch_files(s: Seq<WebOfferView>, tid: Seq<char>)
    requires
        forall|i: int| 0 <= i < s.len() ==> (#[trigger] s[i]).transfer_id != tid,
    ensures
        batch_files(s, tid).len() == 0,
    decreases s.len(),
{
    if s.len() > 0 {
        let t = s.drop_last();
        assert(s.last() == s[s.len() - 1]);
        assert forall|i: int| 0 <= i < t.len() implies (#[trigger] t[i]).transfer_id != tid by {
            assert(t[i] == s[i]);
        }
        lemma_no_batch_files(t, tid);
    }
}

proof fn lemma_all_batch_files(s: Seq<WebOfferView>, tid: Seq<char>)
    requires
        forall|i: int| 0 <= i < s.len() ==> (#[trigger] s[i]).transfer_id == tid,
    ensures
        batch_files(s, tid).len() == s.len(),
        forall|i: int|
            0 <= i < s.len() ==> #[trigger] batch_files(s, tid)[i] == (s[i].rel, s[i].path),
    decreases s.len(),
{
    if s.len() > 0 {
        let t = s.drop_last();
        assert(s.last() == s[s.len() - 1]);
        assert forall|i: int| 0 <= i < t.len() implies (#[trigger] t[i]).transfer_id == tid by {
            assert(t[i] == s[i]);
        }
        lemma_all_batch_files(t, tid);
        let h = batch_files(t, tid);
        assert forall|i: int| 0 <= i < s.len() implies #[trigger] batch_files(s, tid)[i] == (
            s[i].rel,
            s[i].path,
        ) by {
            if i < t.len() {
                assert(batch_files(s, tid)[i] == h[i]);
            }
        }
    }
}

/// An upload goes where the browser says, segment by segment: a path of plain
/// segments is taken as it is.
pub proof fn law_plain_upload_path_is_kept(
    segs: Seq<Seq<char>>,
    name: Option<Seq<char>>,
    batch: Option<Seq<char>>,
)
    requires
        segs.len() > 0,
        forall|i: int|
            0 <= i < segs.len() ==> (#[trigger] segs[i]).len() > 0 && segs[i] != seq!['.']
                && segs[i] != seq!['.', '.'] && !text::has_char(segs[i], ':') && !text::has_char(
                segs[i],
                '/',
            ) && !text::has_char(segs[i], '\\'),
    ensures
        upload_segments(UploadParamsView { name, rel: Some(text::joined(segs, '/')), batch })
            == segs,
{
    let rel = text::joined(segs, '/');
    assert(!text::has_char(rel, '\\')) by {
        lemma_joined_lacks(segs, '/', '\\');
    }
    lemma_nothing_to_replace(rel, '\\', "/"@);
    paths::lemma_pieces_of_joined(segs, '/', '/');
    assert forall|i: int| 0 <= i < segs.len() implies is_kept(#[trigger] segs[i]) by {}
    lemma_all_kept(segs);
}

/// Of an upload without a path only the name counts.
pub proof fn law_upload_goes_by_its_name(p: UploadParamsView)
    requires
        p.rel is None,
        p.name is Some,
    ensures
        upload_segments(p) == upload_segments(UploadParamsView { rel: p.name, ..p }),
{
}

proof fn lemma_all_kept(ps: Seq<Seq<char>>)
    requires
        forall|i: int| 0 <= i < ps.len() ==> is_kept(#[trigger] ps[i]),
    ensures
        kept_segments(ps) == ps,
    decreases ps.len(),
{
    if ps.len() > 0 {
        let t = ps.drop_last();
        assert forall|i: int| 0 <= i < t.len() implies is_kept(#[trigger] t[i]) by {
            assert(t[i] == ps[i]);
        }
        lemma_all_kept(t);
        assert(is_kept(ps[ps.len() - 1]));
        assert(t.push(ps.last()) =~= ps);
    } else {
        assert(kept_segments(ps) =~= ps);
    }
}

proof fn lemma_nothing_to_replace(s: Seq<char>, c: char, with: Seq<char>)
    requires
        !text::has_char(s, c),
    ensures
        text::with_char_replaced(s, c, with) == s,
    decreases s.len(),
{
    if s.len() > 0 {
        let t = s.drop_last();
        assert forall|i: int| 0 <= i < t.len() implies t[i] != c by {
            assert(t[i] == s[i]);
        }
        lemma_nothing_to_replace(t, c, with);
        assert(s.last() == s[s.len() - 1]);
        assert(t.push(s.last()) =~= s);
    } else {
        assert(text::with_char_replaced(s, c, with) =~= s);
    }
}

proof fn lemma_joined_lacks(parts: Seq<Seq<char>>, sep: char, c: char)
    requires
        sep != c,
        forall|i: int| 0 <= i < parts.len() ==> !text::has_char(#[trigger] parts[i], c),
    ensures
        !text::has_char(text::joined(parts, sep), c),
    decreases parts.len(),
{
    let j = text::joined(parts, sep);
    if parts.len() == 0 {
    } else if parts.len() == 1 {
        assert(!text::has_char(parts[0], c));
    } else {
        let t = parts.drop_last();
        assert forall|i: int| 0 <= i < t.len() implies !text::has_char(#[trigger] t[i], c) by {
            assert(t[i] == parts[i]);
        }
        lemma_joined_lacks(t, sep, c);
        let h = text::joined(t, sep);
        let last = parts.last();
        assert(!text::has_char(parts[parts.len() - 1], c));
        assert forall|i: int| 0 <= i < j.len() implies j[i] != c by {
            if i < h.len() {
                assert(j[i] == h[i]);
            } else if i > h.len() {
                assert(j[i] == last[i - h.len() - 1]);
            }
        }
    }
}

/// An upload goes, by the segments that are taken of its path, just below the
/// directory for uploads. Left out are directories like `\\server`, which name
/// no share.
pub proof fn law_upload_goes_where_it_was_sent(
    p: UploadParamsView,
    download_dir: Seq<char>,
    sys: System,
)
    requires
        upload_segments(p).len() > 0,
        paths::has_share(upload_target(p, download_dir, sys), sys) ==> paths::has_share(
            upload_root(download_dir, sys),
            sys,
        ),
    ensures
        paths::components(upload_target(p, download_dir, sys), sys) == paths::components(
            upload_root(download_dir, sys),
            sys,
        ) + Seq::new(
            upload_segments(p).len(),
            |i: int| paths::Comp::Name(upload_segments(p)[i]),
        ),
{
    let rel = match p.rel {
        Some(r) => r,
        None => upload_name(p),
    };
    reveal_strlit("/");
    let s = text::with_char_replaced(rel, '\\', "/"@);
    text::lemma_replaced_char_is_gone(rel, '\\', "/"@);
    let ps = text::pieces(s, '/', '/');
    paths::lemma_pieces_are_plain(s, '/', '/');
    paths::lemma_pieces_lack(s, '/', '/', '\\');
    lemma_kept_segments(ps);
    let segs = upload_segments(p);
    assert forall|i: int| 0 <= i < segs.len() implies paths::is_name(#[trigger] segs[i], sys) by {
        assert(is_kept(segs[i]));
    }
    law_upload_stays_below(p, download_dir, sys);
    paths::law_names_are_appended(upload_root(download_dir, sys), segs, sys);
}

/// Only a file below the directory for uploads is shown by where it lies
/// there.
pub proof fn law_only_uploads_lie_somewhere(
    saved: Option<Seq<char>>,
    download_dir: Seq<char>,
    sys: System,
)
    ensures
        saved is None ==> uploaded_rel(saved, download_dir, sys).len() == 0,
        saved matches Some(p) ==> (!paths::lies_in(p, upload_root(download_dir, sys), sys)
            ==> uploaded_rel(saved, download_dir, sys).len() == 0),
        !text::has_char(uploaded_rel(saved, download_dir, sys), '\\'),
{
    reveal_strlit("/");
    match saved {
        Some(p) => {
            match paths::below(p, upload_root(download_dir, sys), sys) {
                Some(r) => {
                    text::lemma_replaced_char_is_gone(r, '\\', "/"@);
                },
                None => {},
            }
        },
        None => {},
    }
}

} // verus!

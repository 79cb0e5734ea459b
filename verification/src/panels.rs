//! What stands around a conversation: its header, the list of devices, the
//! questions that are asked over it, and the code that a phone reads.

use vstd::prelude::*;
use vstd::string::*;

use crate::proto;
use crate::proto::{fmt_size, Device, DeviceView, FileMeta, FileMetaView, WEB_PEER_ID};
use crate::seqs;
use crate::text;
use crate::text::{cat, cat3, comes_before, same_text, to_ascii_lower, to_decimal};
use crate::ui;
use crate::ui::{find_device, IncomingReq, IncomingReqView, UiState, UiView};

verus! {

// ---------------------------------------------------------------------------
// Addresses
// ---------------------------------------------------------------------------

/// The address that stands for this device where none is known.
pub const LOOPBACK: &'static str = "127.0.0.1";

pub open spec fn shown_host(ip: Option<Seq<char>>) -> Seq<char> {
    match ip {
        Some(t) => t,
        None => LOOPBACK@,
    }
}

/// Where this device is.
pub open spec fn own_address(ip: Option<Seq<char>>, port: u16) -> Seq<char> {
    shown_host(ip) + ":"@ + text::decimal(port as nat)
}

/// The page of this device.
pub open spec fn page_url(ip: Option<Seq<char>>, port: u16) -> Seq<char> {
    "http://"@ + own_address(ip, port) + "/"@
}

pub open spec fn opt_text(s: Option<&str>) -> Option<Seq<char>> {
    match s {
        Some(t) => Some(t@),
        None => None,
    }
}

pub fn local_address(ip: Option<&str>, port: u16) -> (r: String)
    ensures
        r@ == own_address(opt_text(ip), port),
{
    let host = match ip {
        Some(t) => t,
        None => LOOPBACK,
    };
    let p = to_decimal(port as u64);
    cat3(host, ":", p.as_str())
}

pub fn web_url(ip: Option<&str>, port: u16) -> (r: String)
    ensures
        r@ == page_url(opt_text(ip), port),
{
    let a = local_address(ip, port);
    cat3("http://", a.as_str(), "/")
}

// ---------------------------------------------------------------------------
// The header of a conversation
// ---------------------------------------------------------------------------

/// What stands over a conversation.
#[derive(Debug, PartialEq, Eq)]
pub struct ChatHeader {
    /// Whether it is the one with the browsers.
    pub is_web: bool,
    pub name: String,
    pub plat: String,
    pub online: bool,
    pub addr: Option<String>,
    /// The text at the right end.
    pub tail: String,
}

/// [`ChatHeader`] as the contracts speak of it.
#[verifier::ext_equal]
pub struct ChatHeaderView {
    pub is_web: bool,
    pub name: Seq<char>,
    pub plat: Seq<char>,
    pub online: bool,
    pub addr: Option<Seq<char>>,
    pub tail: Seq<char>,
}

impl DeepView for ChatHeader {
    type V = ChatHeaderView;

    open spec fn deep_view(&self) -> ChatHeaderView {
        ChatHeaderView {
            is_web: self.is_web.deep_view(),
            name: self.name.deep_view(),
            plat: self.plat.deep_view(),
            online: self.online.deep_view(),
            addr: self.addr.deep_view(),
            tail: self.tail.deep_view(),
        }
    }
}

pub open spec fn device_of(v: UiView, peer: Seq<char>) -> Option<DeviceView> {
    match ui::device_index(v.devices, peer) {
        Some(i) => Some(v.devices[i]),
        None => None,
    }
}

/// Where a conversation leads: the page for browsers, the device while it is
/// there.
pub open spec fn header_addr(v: UiView, peer: Seq<char>, ip: Option<Seq<char>>) -> Option<Seq<char>> {
    if peer == WEB_PEER_ID@ {
        Some(page_url(ip, v.config.http_port))
    } else {
        match device_of(v, peer) {
            Some(d) => if d.online {
                Some(
                    proto::addr_text(d.addr) + ":"@ + text::decimal(d.info.port as nat),
                )
            } else {
                None
            },
            None => None,
        }
    }
}

/// The header of a conversation. Browsers come and go, so theirs is always
/// online.
pub open spec fn header_of(v: UiView, peer: Seq<char>, ip: Option<Seq<char>>) -> ChatHeaderView {
    let is_web = peer == WEB_PEER_ID@;
    let d = device_of(v, peer);
    let online = is_web || (d is Some && d->Some_0.online);
    let addr = header_addr(v, peer, ip);
    ChatHeaderView {
        is_web,
        name: if is_web {
            "HTTP Server"@
        } else {
            ui::name_of_peer(v, peer)
        },
        plat: match d {
            Some(d) => d.info.plat,
            None => "web"@,
        },
        online,
        addr,
        tail: if !online {
            "离线"@
        } else {
            match addr {
                Some(a) => a,
                None => "在线"@,
            }
        },
    }
}

impl UiState {
    pub fn chat_header(&self, peer: &str, ip: Option<&str>) -> (r: ChatHeader)
        requires
            self.wf(),
        ensures
            r.deep_view() == header_of(self@, peer@, opt_text(ip)),
    {
        let is_web = same_text(peer, WEB_PEER_ID);
        let found = find_device(&self.devices, peer);
        let name = if is_web {
            "HTTP Server".to_owned()
        } else {
            self.peer_name(peer)
        };
        let (plat, there, device_addr) = match found {
            Some(i) => {
                let d = &self.devices[i];
                assert(self@.devices[i as int] == d.deep_view());
                let addr = if d.online {
                    let a = d.addr.text();
                    let p = to_decimal(d.info.port as u64);
                    Some(cat3(a.as_str(), ":", p.as_str()))
                } else {
                    None
                };
                (d.info.plat.clone(), d.online, addr)
            },
            None => ("web".to_owned(), false, None),
        };
        let online = is_web || there;
        let addr = if is_web {
            Some(web_url(ip, self.config.http_port))
        } else {
            device_addr
        };
        let tail = if !online {
            "离线".to_owned()
        } else {
            match &addr {
                Some(a) => a.clone(),
                None => "在线".to_owned(),
            }
        };
        ChatHeader { is_web, name, plat, online, addr, tail }
    }
}

// ---------------------------------------------------------------------------
// The list of devices
// ---------------------------------------------------------------------------

/// The name of a platform.
pub open spec fn plat_name(plat: Seq<char>) -> Seq<char> {
    let p = text::lowered(plat);
    if p == "windows"@ {
        "Windows"@
    } else if p == "mac"@ || p == "macos"@ {
        "Mac"@
    } else if p == "linux"@ {
        "Linux"@
    } else if p == "ios"@ {
        "iPhone"@
    } else if p == "android"@ {
        "Android"@
    } else {
        p
    }
}

pub fn plat_label(plat: &str) -> (r: String)
    ensures
        r@ == plat_name(plat@),
{
    let p = to_ascii_lower(plat);
    if same_text(p.as_str(), "windows") {
        "Windows".to_owned()
    } else if same_text(p.as_str(), "mac") || same_text(p.as_str(), "macos") {
        "Mac".to_owned()
    } else if same_text(p.as_str(), "linux") {
        "Linux".to_owned()
    } else if same_text(p.as_str(), "ios") {
        "iPhone".to_owned()
    } else if same_text(p.as_str(), "android") {
        "Android".to_owned()
    } else {
        p
    }
}

/// The shape that stands for a platform.
#[derive(Debug, PartialEq, Eq, Clone, Copy)]
pub enum PlatShape {
    Monitor,
    Notebook,
    Phone,
}

pub open spec fn shape_of(plat: Seq<char>) -> PlatShape {
    let p = text::lowered(plat);
    if p == "windows"@ || p == "linux"@ {
        PlatShape::Monitor
    } else if p == "mac"@ || p == "macos"@ {
        PlatShape::Notebook
    } else {
        PlatShape::Phone
    }
}

pub fn plat_shape(plat: &str) -> (r: PlatShape)
    ensures
        r == shape_of(plat@),
{
    let p = to_ascii_lower(plat);
    if same_text(p.as_str(), "windows") || same_text(p.as_str(), "linux") {
        PlatShape::Monitor
    } else if same_text(p.as_str(), "mac") || same_text(p.as_str(), "macos") {
        PlatShape::Notebook
    } else {
        PlatShape::Phone
    }
}

/// The mark for messages that were not read; large numbers are not spelled out.
pub open spec fn badge_of(n: u64) -> Option<Seq<char>> {
    if n == 0 {
        None
    } else if n > 99 {
        Some("99+"@)
    } else {
        Some(text::decimal(n as nat))
    }
}

pub fn badge(n: u64) -> (r: Option<String>)
    ensures
        r.deep_view() == badge_of(n),
{
    if n == 0 {
        None
    } else if n > 99 {
        Some("99+".to_owned())
    } else {
        Some(to_decimal(n))
    }
}

/// A device in the list.
#[derive(Debug, PartialEq, Eq)]
pub struct DeviceRow {
    pub id: String,
    pub name: String,
    pub plat: String,
    /// The name of its platform.
    pub label: String,
    pub selected: bool,
    pub badge: Option<String>,
}

/// [`DeviceRow`] as the contracts speak of it.
#[verifier::ext_equal]
pub struct DeviceRowView {
    pub id: Seq<char>,
    pub name: Seq<char>,
    pub plat: Seq<char>,
    pub label: Seq<char>,
    pub selected: bool,
    pub badge: Option<Seq<char>>,
}

impl DeepView for DeviceRow {
    type V = DeviceRowView;

    open spec fn deep_view(&self) -> DeviceRowView {
        DeviceRowView {
            id: self.id.deep_view(),
            name: self.name.deep_view(),
            plat: self.plat.deep_view(),
            label: self.label.deep_view(),
            selected: self.selected.deep_view(),
            badge: self.badge.deep_view(),
        }
    }
}

/// The list of devices, with this one over it.
#[derive(Debug, PartialEq, Eq)]
pub struct Sidebar {
    pub me_name: String,
    pub me_addr: String,
    pub web_badge: Option<String>,
    /// The title of the list, unless it is empty.
    pub group: Option<String>,
    pub rows: Vec<DeviceRow>,
}

/// [`Sidebar`] as the contracts speak of it.
#[verifier::ext_equal]
pub struct SidebarView {
    pub me_name: Seq<char>,
    pub me_addr: Seq<char>,
    pub web_badge: Option<Seq<char>>,
    pub group: Option<Seq<char>>,
    pub rows: Seq<DeviceRowView>,
}

impl DeepView for Sidebar {
    type V = SidebarView;

    open spec fn deep_view(&self) -> SidebarView {
        SidebarView {
            me_name: self.me_name.deep_view(),
            me_addr: self.me_addr.deep_view(),
            web_badge: self.web_badge.deep_view(),
            group: self.group.deep_view(),
            rows: self.rows.deep_view(),
        }
    }
}

pub open spec fn row_for(v: UiView, d: DeviceView) -> DeviceRowView {
    DeviceRowView {
        id: d.info.id,
        name: d.info.name,
        plat: d.info.plat,
        label: plat_name(d.info.plat),
        selected: v.selected == Some(d.info.id),
        badge: badge_of(ui::unread_of(v, d.info.id)),
    }
}

/// The devices that are there, in the order they are known.
pub open spec fn online_rows(v: UiView, s: Seq<DeviceView>) -> Seq<DeviceRowView>
    decreases s.len(),
{
    if s.len() == 0 {
        Seq::empty()
    } else {
        let head = online_rows(v, s.drop_last());
        if s.last().online {
            head.push(row_for(v, s.last()))
        } else {
            head
        }
    }
}

/// How many rows, from the first on, come no later by name than `r`.
pub open spec fn name_place(s: Seq<DeviceRowView>, r: DeviceRowView) -> int
    decreases s.len(),
{
    if s.len() == 0 || text::is_before(r.name, s[0].name) {
        0
    } else {
        1 + name_place(s.skip(1), r)
    }
}

/// The rows by name; those with one name in the order they had.
pub open spec fn by_name(s: Seq<DeviceRowView>) -> Seq<DeviceRowView>
    decreases s.len(),
{
    if s.len() == 0 {
        Seq::empty()
    } else {
        let t = by_name(s.drop_last());
        t.insert(name_place(t, s.last()), s.last())
    }
}

pub open spec fn is_by_name(s: Seq<DeviceRowView>) -> bool {
    forall|i: int, j: int|
        0 <= i <= j < s.len() ==> !text::is_before((#[trigger] s[j]).name, (#[trigger] s[i]).name)
}

proof fn lemma_not_before_itself(a: Seq<char>)
    ensures
        !text::is_before(a, a),
    decreases a.len(),
{
    if a.len() > 0 {
        lemma_not_before_itself(a.skip(1));
    }
}

proof fn lemma_before_one_way(a: Seq<char>, b: Seq<char>)
    requires
        text::is_before(a, b),
    ensures
        !text::is_before(b, a),
    decreases a.len(),
{
    if a.len() > 0 && a[0] == b[0] {
        lemma_before_one_way(a.skip(1), b.skip(1));
    }
}

proof fn lemma_name_place(s: Seq<DeviceRowView>, r: DeviceRowView, k: int)
    requires
        0 <= k <= s.len(),
        forall|i: int| 0 <= i < k ==> !text::is_before(r.name, (#[trigger] s[i]).name),
        k < s.len() ==> text::is_before(r.name, s[k].name),
    ensures
        name_place(s, r) == k,
    decreases k,
{
    if k > 0 {
        let t = s.skip(1);
        assert(!text::is_before(r.name, s[0].name));
        assert forall|i: int| 0 <= i < k - 1 implies !text::is_before(
            r.name,
            (#[trigger] t[i]).name,
        ) by {
            assert(t[i] == s[i + 1]);
        }
        lemma_name_place(t, r, k - 1);
    }
}

proof fn lemma_name_place_range(s: Seq<DeviceRowView>, r: DeviceRowView)
    ensures
        0 <= name_place(s, r) <= s.len(),
        forall|i: int|
            0 <= i < name_place(s, r) ==> !text::is_before(r.name, (#[trigger] s[i]).name),
        name_place(s, r) < s.len() ==> text::is_before(r.name, s[name_place(s, r)].name),
    decreases s.len(),
{
    if s.len() > 0 && !text::is_before(r.name, s[0].name) {
        let t = s.skip(1);
        lemma_name_place_range(t, r);
        let k = name_place(s, r);
        assert forall|i: int| 0 <= i < k implies !text::is_before(
            r.name,
            (#[trigger] s[i]).name,
        ) by {
            if i > 0 {
                assert(!text::is_before(r.name, t[i - 1].name));
            }
        }
    }
}

/// The list is in the order of the names, and holds every device that is there
/// as often as it is known.
pub proof fn law_rows_are_by_name(s: Seq<DeviceRowView>)
    ensures
        is_by_name(by_name(s)),
        by_name(s).to_multiset() == s.to_multiset(),
        by_name(s).len() == s.len(),
    decreases s.len(),
{
    if s.len() == 0 {
        assert(by_name(s) =~= s);
    } else {
        let h = s.drop_last();
        let d = s.last();
        law_rows_are_by_name(h);
        let t = by_name(h);
        let k = name_place(t, d);
        let v = by_name(s);
        lemma_name_place_range(t, d);
        seqs::lemma_insert_multiset(t, k, d);
        h.to_multiset_ensures();
        assert(s =~= h.push(d));
        assert forall|a: int, b: int| 0 <= a <= b < v.len() implies !text::is_before(
            (#[trigger] v[b]).name,
            (#[trigger] v[a]).name,
        ) by {
            let x = if a < k {
                a
            } else {
                a - 1
            };
            let y = if b < k {
                b
            } else {
                b - 1
            };
            if a == b {
                lemma_not_before_itself(v[a].name);
            } else if a != k && b != k {
                assert(!text::is_before(t[y].name, t[x].name));
            } else if a == k {
                lemma_before_one_way(d.name, t[k].name);
                assert(!text::is_before(t[y].name, t[k].name));
                text::lemma_before_transitive(d.name, t[k].name, t[y].name);
            } else {
                assert(!text::is_before(d.name, t[x].name));
            }
        }
    }
}

/// What stands at the side.
pub open spec fn sidebar_of(v: UiView, ip: Option<Seq<char>>) -> SidebarView {
    let rows = by_name(online_rows(v, v.devices));
    SidebarView {
        me_name: v.config.device_name,
        me_addr: own_address(ip, v.config.http_port),
        web_badge: badge_of(ui::unread_of(v, WEB_PEER_ID@)),
        group: if rows.len() > 0 {
            Some("在线 · "@ + text::decimal(rows.len()))
        } else {
            None
        },
        rows,
    }
}

impl UiState {
    fn make_row(&self, d: &Device) -> (r: DeviceRow)
        requires
            self.wf(),
        ensures
            r.deep_view() == row_for(self@, d.deep_view()),
    {
        let selected = match &self.selected {
            Some(s) => same_text(s.as_str(), d.info.id.as_str()),
            None => false,
        };
        let n = self.unread_count(d.info.id.as_str());
        DeviceRow {
            id: d.info.id.clone(),
            name: d.info.name.clone(),
            plat: d.info.plat.clone(),
            label: plat_label(d.info.plat.as_str()),
            selected,
            badge: badge(n),
        }
    }

    fn collect_rows(&self) -> (r: Vec<DeviceRow>)
        requires
            self.wf(),
        ensures
            r.deep_view() == by_name(online_rows(self@, self@.devices)),
    {
        let ghost v = self@;
        let ghost all = self.devices.deep_view();
        let mut out: Vec<DeviceRow> = Vec::new();
        let mut i: usize = 0;
        assert(all.take(0) =~= Seq::<DeviceView>::empty());
        assert(out.deep_view() =~= Seq::<DeviceRowView>::empty());
        while i < self.devices.len()
            invariant
                self.wf(),
                v == self@,
                all == self.devices.deep_view(),
                i <= self.devices@.len(),
                out.deep_view() == by_name(online_rows(v, all.take(i as int))),
            decreases self.devices@.len() - i,
        {
            proof {
                assert(all[i as int] == self.devices@[i as int].deep_view());
                assert(all.take(i + 1).drop_last() =~= all.take(i as int));
                assert(all.take(i + 1).last() == all[i as int]);
            }
            if self.devices[i].online {
                let row = self.make_row(&self.devices[i]);
                let ghost sorted = out.deep_view();
                let mut k: usize = 0;
                while k < out.len() && !comes_before(row.name.as_str(), out[k].name.as_str())
                    invariant
                        k <= out@.len(),
                        sorted == out.deep_view(),
                        forall|m: int|
                            0 <= m < k ==> !text::is_before(row.name@, (#[trigger] sorted[m]).name),
                    decreases out@.len() - k,
                {
                    assert(sorted[k as int] == out@[k as int].deep_view());
                    k = k + 1;
                }
                proof {
                    if k < out@.len() {
                        assert(sorted[k as int] == out@[k as int].deep_view());
                    }
                    lemma_name_place(sorted, row.deep_view(), k as int);
                    let rows = online_rows(v, all.take(i as int));
                    assert(rows.push(row.deep_view()).drop_last() =~= rows);
                }
                let ghost rv = row.deep_view();
                out.insert(k, row);
                assert(out.deep_view() =~= sorted.insert(k as int, rv));
            }
            i = i + 1;
        }
        assert(all.take(i as int) =~= all);
        out
    }

    pub fn sidebar(&self, ip: Option<&str>) -> (r: Sidebar)
        requires
            self.wf(),
        ensures
            r.deep_view() == sidebar_of(self@, opt_text(ip)),
    {
        let rows = self.collect_rows();
        assert(rows.deep_view().len() == rows@.len());
        let group = if rows.len() > 0 {
            let n = to_decimal(rows.len() as u64);
            Some(cat("在线 · ", n.as_str()))
        } else {
            None
        };
        let n = self.unread_count(WEB_PEER_ID);
        Sidebar {
            me_name: self.config.device_name.clone(),
            me_addr: local_address(ip, self.config.http_port),
            web_badge: badge(n),
            group,
            rows,
        }
    }
}

/// The list of devices shows nobody who is gone.
pub proof fn law_only_online_devices_are_listed(v: UiView, s: Seq<DeviceView>, i: int)
    requires
        0 <= i < online_rows(v, s).len(),
    ensures
        exists|k: int|
            0 <= k < s.len() && (#[trigger] s[k]).online && online_rows(v, s)[i] == row_for(v, s[k]),
    decreases s.len(),
{
    let h = s.drop_last();
    let rows = online_rows(v, h);
    if s.last().online && i == rows.len() {
        assert(s[s.len() - 1].online);
    } else {
        law_only_online_devices_are_listed(v, h, i);
        let k = choose|k: int|
            0 <= k < h.len() && (#[trigger] h[k]).online && rows[i] == row_for(v, h[k]);
        assert(s[k] == h[k]);
    }
}

// ---------------------------------------------------------------------------
// Requests
// ---------------------------------------------------------------------------

pub open spec fn sizes_sum(s: Seq<FileMetaView>) -> nat
    decreases s.len(),
{
    if s.len() == 0 {
        0
    } else {
        sizes_sum(s.drop_last()) + s.last().size as nat
    }
}

/// A request that waits for an answer.
#[derive(Debug, PartialEq, Eq)]
pub struct RequestCard {
    pub title: String,
    pub detail: String,
}

/// [`RequestCard`] as the contracts speak of it.
#[verifier::ext_equal]
pub struct RequestCardView {
    pub title: Seq<char>,
    pub detail: Seq<char>,
}

impl DeepView for RequestCard {
    type V = RequestCardView;

    open spec fn deep_view(&self) -> RequestCardView {
        RequestCardView {
            title: self.title.deep_view(),
            detail: self.detail.deep_view(),
        }
    }
}

pub open spec fn request_card(v: UiView, req: IncomingReqView) -> RequestCardView {
    let total = sizes_sum(req.files);
    RequestCardView {
        title: req.peer.info.name + " 想发送 "@ + text::decimal(req.files.len()) + " 个文件"@,
        detail: proto::size_text(
            if total > u64::MAX {
                u64::MAX as nat
            } else {
                total
            },
        ) + " · 保存到 "@ + v.config.download_dir,
    }
}

fn sum_files(files: &Vec<FileMeta>) -> (r: u128)
    ensures
        r == sizes_sum(files.deep_view()),
{
    let ghost all = files.deep_view();
    let n: usize = files.len();
    let mut sum: u128 = 0;
    let mut i: usize = 0;
    assert(all.take(0) =~= Seq::<FileMetaView>::empty());
    while i < n
        invariant
            n == files@.len(),
            all == files.deep_view(),
            i <= n,
            sum == sizes_sum(all.take(i as int)),
            sum <= i * 0xffff_ffff_ffff_ffff,
        decreases n - i,
    {
        proof {
            assert(all[i as int] == files@[i as int].deep_view());
            assert(all.take(i + 1).drop_last() =~= all.take(i as int));
            assert(all.take(i + 1).last() == all[i as int]);
            assert(i * 0xffff_ffff_ffff_ffff + 0xffff_ffff_ffff_ffff == (i + 1)
                * 0xffff_ffff_ffff_ffff) by (nonlinear_arith);
            assert((i + 1) * 0xffff_ffff_ffff_ffff
                <= 0x1_0000_0000_0000_0000 * 0xffff_ffff_ffff_ffff) by (nonlinear_arith)
                requires
                    i < n,
                    n <= 0xffff_ffff_ffff_ffff,
            ;
        }
        sum = sum + files[i].size as u128;
        i = i + 1;
    }
    assert(all.take(i as int) =~= all);
    sum
}

impl UiState {
    pub fn make_request_card(&self, req: &IncomingReq) -> (r: RequestCard)
        ensures
            r.deep_view() == request_card(self@, req.deep_view()),
    {
        let total = sum_files(&req.files);
        let shown: u64 = if total > 0xffff_ffff_ffff_ffff {
            0xffff_ffff_ffff_ffff
        } else {
            total as u64
        };
        let n = to_decimal(req.files.len() as u64);
        let mut title = cat3(req.peer.info.name.as_str(), " 想发送 ", n.as_str());
        title.append(" 个文件");
        let size = fmt_size(shown);
        let detail = cat3(size.as_str(), " · 保存到 ", self.config.download_dir.as_str());
        RequestCard { title, detail }
    }
}

// ---------------------------------------------------------------------------
// Files in the way
// ---------------------------------------------------------------------------

/// How many names are spelled out.
pub const NAMES_SHOWN: usize = 5;

/// What is asked before files are replaced.
#[derive(Debug, PartialEq, Eq)]
pub struct OverwriteQuestion {
    pub title: String,
    pub lines: Vec<String>,
    /// How many there are, where not all names stand above.
    pub more: Option<String>,
}

/// [`OverwriteQuestion`] as the contracts speak of it.
#[verifier::ext_equal]
pub struct OverwriteQuestionView {
    pub title: Seq<char>,
    pub lines: Seq<Seq<char>>,
    pub more: Option<Seq<char>>,
}

impl DeepView for OverwriteQuestion {
    type V = OverwriteQuestionView;

    open spec fn deep_view(&self) -> OverwriteQuestionView {
        OverwriteQuestionView {
            title: self.title.deep_view(),
            lines: self.lines.deep_view(),
            more: self.more.deep_view(),
        }
    }
}

pub open spec fn overwrite_question(names: Seq<Seq<char>>) -> OverwriteQuestionView {
    OverwriteQuestionView {
        title: text::decimal(names.len()) + " 个同名文件已存在"@,
        lines: Seq::new(
            if names.len() < NAMES_SHOWN {
                names.len()
            } else {
                NAMES_SHOWN as nat
            },
            |i: int| "· "@ + names[i],
        ),
        more: if names.len() > NAMES_SHOWN {
            Some("… 等共 "@ + text::decimal(names.len()) + " 个"@)
        } else {
            None
        },
    }
}

pub fn ask_before_overwriting(names: &Vec<String>) -> (r: OverwriteQuestion)
    ensures
        r.deep_view() == overwrite_question(names.deep_view()),
{
    let ghost nv = names.deep_view();
    let ghost wanted = overwrite_question(nv).lines;
    let n = to_decimal(names.len() as u64);
    let shown: usize = if names.len() < NAMES_SHOWN {
        names.len()
    } else {
        NAMES_SHOWN
    };
    let mut lines: Vec<String> = Vec::new();
    let mut i: usize = 0;
    while i < shown
        invariant
            nv == names.deep_view(),
            wanted == overwrite_question(nv).lines,
            shown == wanted.len(),
            shown <= names@.len(),
            i <= shown,
            lines.deep_view() =~= wanted.take(i as int),
        decreases shown - i,
    {
        assert(nv[i as int] == names@[i as int]@);
        let ghost before = lines.deep_view();
        let line = cat("· ", names[i].as_str());
        lines.push(line);
        assert(lines.deep_view() =~= before.push(wanted[i as int]));
        i = i + 1;
    }
    assert(lines.deep_view() =~= wanted);
    let more = if names.len() > NAMES_SHOWN {
        Some(cat3("… 等共 ", n.as_str(), " 个"))
    } else {
        None
    };
    OverwriteQuestion { title: cat(n.as_str(), " 个同名文件已存在"), lines, more }
}

// ---------------------------------------------------------------------------
// Starting with the system
// ---------------------------------------------------------------------------

/// What the user is told after the switch was turned.
pub open spec fn autostart_told(outcome: Result<bool, Seq<char>>) -> (Seq<char>, bool) {
    match outcome {
        Ok(on) => (
            if on {
                "已开启开机启动"@
            } else {
                "已关闭开机启动"@
            },
            false,
        ),
        Err(cause) => ("设置失败: "@ + cause, true),
    }
}

impl UiState {
    /// The switch for starting with the system was turned; `Err` holds why it
    /// could not be.
    pub fn autostart_switched(&mut self, outcome: Result<bool, &str>, now: i64)
        requires
            old(self).wf(),
        ensures
            final(self).wf(),
            final(self)@ == ({
                let t = autostart_told(
                    match outcome {
                        Ok(on) => Ok(on),
                        Err(cause) => Err(cause@),
                    },
                );
                ui::with_toast(old(self)@, t.0, t.1, now)
            }),
    {
        match outcome {
            Ok(on) => {
                let t = if on {
                    "已开启开机启动"
                } else {
                    "已关闭开机启动"
                };
                self.set_toast(t.to_owned(), false, now);
            },
            Err(cause) => {
                let t = cat("设置失败: ", cause);
                self.set_toast(t, true, now);
            },
        }
    }
}

// ---------------------------------------------------------------------------
// The code that a phone reads
// ---------------------------------------------------------------------------

/// The QR code of a text: how many modules a side has, and which modules are
/// dark, row by row.
pub uninterp spec fn qr_of(t: Seq<char>) -> Option<(nat, Seq<bool>)>;

/// Calls `qrcode::QrCode::new` on the bytes of the text and hands out the
/// symbol through `QrCode::width` and `QrCode::to_colors`, a dark module as
/// `true`. The symbol is a function of the text. Claimed besides: it is a
/// square, with 21 to 177 modules a side; there is none where the text is too
/// long for the largest one.
#[verifier::external_body]
fn encode_qr(t: &str) -> (r: Option<(usize, Vec<bool>)>)
    ensures
        match r {
            Some((n, cells)) => qr_of(t@) == Some((n as nat, cells@)) && 21 <= n <= 177
                && cells@.len() == n * n,
            None => qr_of(t@) is None,
        },
{
    match qrcode::QrCode::new(t.as_bytes()) {
        Ok(c) => {
            let cells = c.to_colors().into_iter().map(|m| m.select(true, false)).collect();
            Some((c.width(), cells))
        },
        Err(_) => None,
    }
}

/// A square of modules as rows.
pub open spec fn rows_of_square(n: nat, cells: Seq<bool>) -> Seq<Seq<bool>> {
    Seq::new(n, |y: int| Seq::new(n, |x: int| cells[y * n + x]))
}

pub fn square_rows(n: usize, cells: &Vec<bool>) -> (r: Vec<Vec<bool>>)
    requires
        cells@.len() == n * n,
    ensures
        r.deep_view() == rows_of_square(n as nat, cells@),
{
    let ghost wanted = rows_of_square(n as nat, cells@);
    let mut out: Vec<Vec<bool>> = Vec::new();
    let len: usize = cells.len();
    let mut at: usize = 0;
    let mut y: usize = 0;
    while y < n
        invariant
            cells@.len() == n * n,
            wanted == rows_of_square(n as nat, cells@),
            len == cells@.len(),
            y <= n,
            at == y * n,
            out.deep_view() =~= wanted.take(y as int),
        decreases n - y,
    {
        let mut row: Vec<bool> = Vec::new();
        let mut x: usize = 0;
        proof {
            assert((y + 1) * n <= n * n) by (nonlinear_arith)
                requires
                    y < n,
            ;
            assert((y + 1) * n == y * n + n) by (nonlinear_arith);
        }
        while x < n
            invariant
                cells@.len() == n * n,
                wanted == rows_of_square(n as nat, cells@),
                y < n,
                y * n + n <= n * n,
                len == cells@.len(),
                x <= n,
                at == y * n + x,
                row@ =~= wanted[y as int].take(x as int),
            decreases n - x,
        {
            assert(y * n + x < n * n);
            row.push(cells[at]);
            assert(wanted[y as int][x as int] == cells@[y * n + x]);
            at = at + 1;
            x = x + 1;
        }
        assert(row@ =~= wanted[y as int]);
        assert(row.deep_view() =~= row@);
        let ghost before = out.deep_view();
        let ghost rv = row.deep_view();
        out.push(row);
        assert(out.deep_view() =~= before.push(rv));
        y = y + 1;
    }
    assert(out.deep_view() =~= wanted);
    out
}

/// The rows of the QR code of a text.
pub fn qr_rows(t: &str) -> (r: Option<Vec<Vec<bool>>>)
    ensures
        r.deep_view() == (match qr_of(t@) {
            Some((n, cells)) => Some(rows_of_square(n, cells)),
            None => None,
        }),
{
    match encode_qr(t) {
        Some((n, cells)) => Some(square_rows(n, &cells)),
        None => None,
    }
}

// ---------------------------------------------------------------------------
// Over the window
// ---------------------------------------------------------------------------

/// What may lie over the window.
#[derive(Debug, PartialEq, Eq, Structural, Clone, Copy)]
pub enum Overlay {
    Settings,
    Connect,
    WebQr,
    Overwrite,
    Close,
    Toast,
}

pub open spec fn if_open(open: bool, o: Overlay) -> Seq<Overlay> {
    if open {
        seq![o]
    } else {
        Seq::empty()
    }
}

/// What lies over the window, the lowest first.
pub open spec fn overlays_of(v: UiView) -> Seq<Overlay> {
    if_open(v.show_settings, Overlay::Settings) + if_open(v.show_connect, Overlay::Connect)
        + if_open(v.show_web_qr, Overlay::WebQr) + if_open(
        v.overwrite_req is Some,
        Overlay::Overwrite,
    ) + if_open(v.show_close_dialog, Overlay::Close) + if_open(v.toast is Some, Overlay::Toast)
}

fn push_if(out: &mut Vec<Overlay>, open: bool, o: Overlay)
    ensures
        final(out)@ == old(out)@ + if_open(open, o),
{
    let ghost before = out@;
    if open {
        out.push(o);
    }
    assert(out@ =~= before + if_open(open, o));
}

/// One of the things that closing the window can do.
#[derive(Debug, PartialEq, Eq)]
pub struct CloseChoice {
    /// How the settings spell it.
    pub action: String,
    pub label: String,
    pub chosen: bool,
}

/// [`CloseChoice`] as the contracts speak of it.
#[verifier::ext_equal]
pub struct CloseChoiceView {
    pub action: Seq<char>,
    pub label: Seq<char>,
    pub chosen: bool,
}

impl DeepView for CloseChoice {
    type V = CloseChoiceView;

    open spec fn deep_view(&self) -> CloseChoiceView {
        CloseChoiceView {
            action: self.action.deep_view(),
            label: self.label.deep_view(),
            chosen: self.chosen.deep_view(),
        }
    }
}

pub open spec fn close_choice(action: Seq<char>, label: Seq<char>, now: Seq<char>) -> CloseChoiceView {
    CloseChoiceView { action, label, chosen: action == now }
}

/// The choices, with the one that the settings hold.
pub open spec fn close_choices_of(now: Seq<char>) -> Seq<CloseChoiceView> {
    seq![
        close_choice("ask"@, "每次询问"@, now),
        close_choice("tray"@, "最小化到托盘"@, now),
        close_choice("close"@, "直接退出"@, now),
    ]
}

fn make_choice(action: &str, label: &str, now: &str) -> (r: CloseChoice)
    ensures
        r.deep_view() == close_choice(action@, label@, now@),
{
    CloseChoice {
        action: action.to_owned(),
        label: label.to_owned(),
        chosen: same_text(action, now),
    }
}

impl UiState {
    pub fn overlays(&self) -> (r: Vec<Overlay>)
        ensures
            r@ == overlays_of(self@),
    {
        let mut out: Vec<Overlay> = Vec::new();
        push_if(&mut out, self.show_settings, Overlay::Settings);
        push_if(&mut out, self.show_connect, Overlay::Connect);
        push_if(&mut out, self.show_web_qr, Overlay::WebQr);
        push_if(&mut out, self.overwrite_req.is_some(), Overlay::Overwrite);
        push_if(&mut out, self.show_close_dialog, Overlay::Close);
        push_if(&mut out, self.toast.is_some(), Overlay::Toast);
        assert(out@ =~= overlays_of(self@));
        out
    }

    pub fn close_choices(&self) -> (r: Vec<CloseChoice>)
        ensures
            r.deep_view() == close_choices_of(self@.config.close_action),
    {
        let now = self.config.close_action.as_str();
        let mut out: Vec<CloseChoice> = Vec::new();
        out.push(make_choice("ask", "每次询问", now));
        out.push(make_choice("tray", "最小化到托盘", now));
        out.push(make_choice("close", "直接退出", now));
        assert(out.deep_view() =~= close_choices_of(now@));
        out
    }

    /// What the button for clearing a conversation says.
    pub fn clear_hint(&self, now: i64) -> (r: &'static str)
        requires
            self.wf(),
        ensures
            r@ == (if ui::is_armed(
                self@,
                match self@.selected {
                    Some(p) => p,
                    None => Seq::empty(),
                },
                now,
            ) {
                "再点一次确认清空"@
            } else {
                "清空聊天记录"@
            }),
    {
        if self.clear_armed(now) {
            "再点一次确认清空"
        } else {
            "清空聊天记录"
        }
    }
}

// ---------------------------------------------------------------------------
// Laws of the panels
// ---------------------------------------------------------------------------

/// Every device that is there has its row, and nobody else has one.
pub proof fn law_every_online_device_has_a_row(
    v: UiView,
    a: Seq<DeviceView>,
    b: Seq<DeviceView>,
    d: DeviceView,
)
    ensures
        online_rows(v, a + b) == online_rows(v, a) + online_rows(v, b),
        d.online ==> online_rows(v, seq![d]) == seq![row_for(v, d)],
        !d.online ==> online_rows(v, seq![d]).len() == 0,
    decreases b.len(),
{
    let all = a + b;
    if b.len() == 0 {
        assert(all =~= a);
        assert(online_rows(v, a) + online_rows(v, b) =~= online_rows(v, a));
    } else {
        law_every_online_device_has_a_row(v, a, b.drop_last(), d);
        assert(all.drop_last() =~= a + b.drop_last());
        assert(all.last() == b.last());
        assert(online_rows(v, all) =~= online_rows(v, a) + online_rows(v, b));
    }
    assert(seq![d].drop_last() =~= Seq::<DeviceView>::empty());
    assert(seq![d].last() == d);
    assert(online_rows(v, Seq::<DeviceView>::empty()) =~= Seq::<DeviceRowView>::empty());
    if d.online {
        assert(online_rows(v, seq![d]) =~= seq![row_for(v, d)]);
    }
}

/// A row is that of its device: it opens the conversation with it, shows its
/// name, is marked where that conversation is open, and bears a number exactly
/// where something in it is unread.
pub proof fn law_row_is_that_of_its_device(v: UiView, d: DeviceView)
    ensures
        ({
            let r = row_for(v, d);
            &&& r.id == d.info.id
            &&& r.name == d.info.name
            &&& r.plat == d.info.plat
            &&& r.selected <==> v.selected == Some(d.info.id)
            &&& r.badge is None <==> ui::unread_of(v, d.info.id) == 0
            &&& 1 <= ui::unread_of(v, d.info.id) <= 99 ==> r.badge == Some(
                text::decimal(ui::unread_of(v, d.info.id) as nat),
            )
            &&& ui::unread_of(v, d.info.id) > 99 ==> r.badge == Some("99+"@)
        }),
{
}

/// The list at the side has one row for each device that is there, and counts
/// them.
pub proof fn law_side_lists_who_is_there(v: UiView, ip: Option<Seq<char>>)
    ensures
        ({
            let s = sidebar_of(v, ip);
            &&& s.rows.len() == online_rows(v, v.devices).len()
            &&& s.rows.to_multiset() == online_rows(v, v.devices).to_multiset()
            &&& is_by_name(s.rows)
            &&& s.group is None <==> s.rows.len() == 0
            &&& s.rows.len() > 0 ==> s.group == Some("在线 · "@ + text::decimal(s.rows.len()))
            &&& s.me_name == v.config.device_name
            &&& s.me_addr == own_address(ip, v.config.http_port)
            &&& s.web_badge is None <==> ui::unread_of(v, "__web__"@) == 0
        }),
{
    law_rows_are_by_name(online_rows(v, v.devices));
}

/// The header names the other side, tells whether it is there, and shows an
/// address exactly where it is; browsers are always there, at the page of this
/// device.
pub proof fn law_header_is_that_of_its_conversation(
    v: UiView,
    peer: Seq<char>,
    ip: Option<Seq<char>>,
)
    requires
        crate::discovery::ids_unique(v.devices),
    ensures
        ({
            let h = header_of(v, peer, ip);
            &&& h.is_web <==> peer == "__web__"@
            &&& peer == "__web__"@ ==> h.online && h.addr == Some(
                page_url(ip, v.config.http_port),
            )
            &&& peer != "__web__"@ ==> {
                &&& h.name == ui::name_of_peer(v, peer)
                &&& h.online <==> ui::is_online(v.devices, peer)
                &&& h.addr is Some <==> h.online
            }
            &&& !h.online ==> h.tail == "离线"@
            &&& h.addr is Some ==> h.tail == h.addr->Some_0
        }),
{
    ui::lemma_device_found(v.devices, peer);
    match ui::device_index(v.devices, peer) {
        Some(p) => {
            if ui::is_online(v.devices, peer) {
                let i = choose|i: int|
                    0 <= i < v.devices.len() && (#[trigger] v.devices[i]).info.id == peer
                        && v.devices[i].online;
                if p < i {
                    assert(v.devices[p].info.id != v.devices[i].info.id);
                } else if i < p {
                    assert(v.devices[i].info.id != v.devices[p].info.id);
                }
            }
        },
        None => {},
    }
}

/// The address of this device is the one that is known, or the one that every
/// device has; the page is there.
pub proof fn law_own_page_is_at_the_own_address(ip: Seq<char>, port: u16)
    ensures
        own_address(Some(ip), port) == ip + ":"@ + text::decimal(port as nat),
        own_address(None, port) == own_address(Some("127.0.0.1"@), port),
        page_url(Some(ip), port) == "http://"@ + own_address(Some(ip), port) + "/"@,
{
}

/// The sizes of a request add up over its files.
pub proof fn law_request_sizes_add_up(a: Seq<FileMetaView>, b: Seq<FileMetaView>, f: FileMetaView)
    ensures
        sizes_sum(a + b) == sizes_sum(a) + sizes_sum(b),
        sizes_sum(seq![f]) == f.size,
    decreases b.len(),
{
    let all = a + b;
    if b.len() == 0 {
        assert(all =~= a);
    } else {
        law_request_sizes_add_up(a, b.drop_last(), f);
        assert(all.drop_last() =~= a + b.drop_last());
        assert(all.last() == b.last());
    }
    assert(seq![f].drop_last() =~= Seq::<FileMetaView>::empty());
    assert(sizes_sum(Seq::<FileMetaView>::empty()) == 0);
    assert(seq![f].last() == f);
}

/// The question names the files that would be replaced, the first ones one by
/// one, and says so where there are more.
pub proof fn law_question_names_the_files(names: Seq<Seq<char>>)
    ensures
        ({
            let q = overwrite_question(names);
            &&& q.lines.len() <= names.len()
            &&& forall|i: int|
                0 <= i < q.lines.len() ==> #[trigger] q.lines[i] == "· "@ + names[i]
            &&& q.more is Some <==> q.lines.len() < names.len()
            &&& q.title == text::decimal(names.len()) + " 个同名文件已存在"@
        }),
{
}

proof fn lemma_if_open(s: Seq<Overlay>, open: bool, o: Overlay, x: Overlay)
    ensures
        (s + if_open(open, o)).contains(x) <==> s.contains(x) || (open && o == x),
{
    let all = s + if_open(open, o);
    if s.contains(x) {
        let i = choose|i: int| 0 <= i < s.len() && s[i] == x;
        assert(all[i] == x);
    }
    if open && o == x {
        assert(all[s.len() as int] == x);
    }
}

/// What is open lies over the window, and nothing else does.
pub proof fn law_open_panels_are_shown(v: UiView, x: Overlay)
    ensures
        overlays_of(v).contains(x) <==> match x {
            Overlay::Settings => v.show_settings,
            Overlay::Connect => v.show_connect,
            Overlay::WebQr => v.show_web_qr,
            Overlay::Overwrite => v.overwrite_req is Some,
            Overlay::Close => v.show_close_dialog,
            Overlay::Toast => v.toast is Some,
        },
        v.toast is Some ==> overlays_of(v).last() == Overlay::Toast,
{
    let none = Seq::<Overlay>::empty();
    let a = if_open(v.show_settings, Overlay::Settings);
    let b = a + if_open(v.show_connect, Overlay::Connect);
    let c = b + if_open(v.show_web_qr, Overlay::WebQr);
    let d = c + if_open(v.overwrite_req is Some, Overlay::Overwrite);
    let e = d + if_open(v.show_close_dialog, Overlay::Close);
    assert(none + a =~= a);
    lemma_if_open(none, v.show_settings, Overlay::Settings, x);
    lemma_if_open(a, v.show_connect, Overlay::Connect, x);
    lemma_if_open(b, v.show_web_qr, Overlay::WebQr, x);
    lemma_if_open(c, v.overwrite_req is Some, Overlay::Overwrite, x);
    lemma_if_open(d, v.show_close_dialog, Overlay::Close, x);
    lemma_if_open(e, v.toast is Some, Overlay::Toast, x);
}

/// Of the three things that closing the window can do, the one in the settings
/// is marked.
pub proof fn law_one_close_choice_is_marked(now: Seq<char>, i: int)
    requires
        0 <= i < 3,
    ensures
        close_choices_of(now).len() == 3,
        close_choices_of(now)[i].chosen <==> close_choices_of(now)[i].action == now,
        close_choices_of(now)[0].action == "ask"@,
        close_choices_of(now)[1].action == "tray"@,
        close_choices_of(now)[2].action == "close"@,
{
}

} // verus!

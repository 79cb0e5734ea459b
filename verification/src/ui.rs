//! What the user sees: conversations, transfers, requests and notices, and how
//! each event of the core changes them.

use vstd::prelude::*;
use vstd::string::*;

use crate::client;
use crate::client::batch_display_name;
use crate::discovery;
use crate::discovery::sort_by_last_seen;
use crate::engine;
use crate::engine::parse_number;
use crate::paths;
use crate::paths::{join_path, System};
use crate::proto::{
    ChatMessage, ChatMessageView, CoreEvent, CoreEventView, Device, DeviceView, FileMeta,
    FileMetaView, MessageKind, MessageKindView, UiCommand, UiCommandView, WEB_PEER_ID,
};
use crate::server;
use crate::store::{Config, ConfigView};
use crate::text;
use crate::text::{
    cat, cat3, chars_of, same_text, string_range, take_chars, to_decimal, trim,
};
use crate::textmap::TextMap;

verus! {

/// At most this many transfers are remembered.
pub const TRANSFER_LIMIT: usize = 20;

/// A speed is measured over at least this many nanoseconds.
pub const SPEED_WINDOW_NS: u64 = 400_000_000;

/// A notice is shown this long.
pub const TOAST_MS: i64 = 3000;

/// A second click within this time confirms.
pub const CONFIRM_MS: i64 = 3000;

/// This many messages of a conversation are read when it is opened.
pub const HISTORY_LIMIT: i64 = 300;

// ---------------------------------------------------------------------------
// State
// ---------------------------------------------------------------------------

/// A file of a transfer.
#[derive(Debug, PartialEq, Eq)]
pub struct TransferFile {
    pub meta: FileMeta,
    pub transferred: u64,
    pub done: bool,
    /// Where it was saved.
    pub saved_path: Option<String>,
    /// Where the sender has it.
    pub source: Option<String>,
}

/// [`TransferFile`] as the contracts speak of it.
#[verifier::ext_equal]
pub struct TransferFileView {
    pub meta: FileMetaView,
    pub transferred: u64,
    pub done: bool,
    pub saved_path: Option<Seq<char>>,
    pub source: Option<Seq<char>>,
}

impl DeepView for TransferFile {
    type V = TransferFileView;

    open spec fn deep_view(&self) -> TransferFileView {
        TransferFileView {
            meta: self.meta.deep_view(),
            transferred: self.transferred.deep_view(),
            done: self.done.deep_view(),
            saved_path: self.saved_path.deep_view(),
            source: self.source.deep_view(),
        }
    }
}

impl Clone for TransferFile {
    fn clone(&self) -> (r: Self)
        ensures
            r.deep_view() == self.deep_view(),
    {
        let r = TransferFile {
            meta: self.meta.clone(),
            transferred: self.transferred,
            done: self.done,
            saved_path: self.saved_path.clone(),
            source: self.source.clone(),
        };
        r
    }
}

/// A transfer that runs or has run.
#[derive(Debug, PartialEq, Eq)]
pub struct TransferState {
    pub id: String,
    pub peer_id: String,
    pub files: Vec<TransferFile>,
    pub error: Option<String>,
    /// When the speed was measured last, in nanoseconds, and what had been
    /// transferred then.
    pub last_sample: Option<(u64, u128)>,
    /// How many bytes moved over how many nanoseconds, when that was measured last;
    /// nothing where nothing moved.
    pub rate: Option<(u128, u64)>,
}

/// [`TransferState`] as the contracts speak of it.
#[verifier::ext_equal]
pub struct TransferStateView {
    pub id: Seq<char>,
    pub peer_id: Seq<char>,
    pub files: Seq<TransferFileView>,
    pub error: Option<Seq<char>>,
    pub last_sample: Option<(u64, u128)>,
    pub rate: Option<(u128, u64)>,
}

impl DeepView for TransferState {
    type V = TransferStateView;

    open spec fn deep_view(&self) -> TransferStateView {
        TransferStateView {
            id: self.id.deep_view(),
            peer_id: self.peer_id.deep_view(),
            files: self.files.deep_view(),
            error: self.error.deep_view(),
            last_sample: self.last_sample.deep_view(),
            rate: self.rate.deep_view(),
        }
    }
}

/// A request that waits for the user.
#[derive(Debug, PartialEq, Eq)]
pub struct IncomingReq {
    pub req_id: String,
    pub peer: Device,
    pub files: Vec<FileMeta>,
}

/// [`IncomingReq`] as the contracts speak of it.
#[verifier::ext_equal]
pub struct IncomingReqView {
    pub req_id: Seq<char>,
    pub peer: DeviceView,
    pub files: Seq<FileMetaView>,
}

impl DeepView for IncomingReq {
    type V = IncomingReqView;

    open spec fn deep_view(&self) -> IncomingReqView {
        IncomingReqView {
            req_id: self.req_id.deep_view(),
            peer: self.peer.deep_view(),
            files: self.files.deep_view(),
        }
    }
}

impl Clone for IncomingReq {
    fn clone(&self) -> (r: Self)
        ensures
            r.deep_view() == self.deep_view(),
    {
        let r = IncomingReq {
            req_id: self.req_id.clone(),
            peer: self.peer.clone(),
            files: self.files.clone(),
        };
        assert(r.files.deep_view() =~= self.files.deep_view());
        r
    }
}

/// A notice.
#[derive(Debug, PartialEq, Eq)]
pub struct Toast {
    pub text: String,
    pub at_ms: i64,
    pub is_error: bool,
}

/// [`Toast`] as the contracts speak of it.
#[verifier::ext_equal]
pub struct ToastView {
    pub text: Seq<char>,
    pub at_ms: i64,
    pub is_error: bool,
}

impl DeepView for Toast {
    type V = ToastView;

    open spec fn deep_view(&self) -> ToastView {
        ToastView {
            text: self.text.deep_view(),
            at_ms: self.at_ms.deep_view(),
            is_error: self.is_error.deep_view(),
        }
    }
}

impl Clone for Toast {
    fn clone(&self) -> (r: Self)
        ensures
            r.deep_view() == self.deep_view(),
    {
        let r = Toast {
            text: self.text.clone(),
            at_ms: self.at_ms,
            is_error: self.is_error,
        };
        r
    }
}

/// What an event asks of the outside world.
#[derive(Debug, PartialEq, Eq)]
pub enum UiEffect {
    /// Remembers the name of a device.
    UpsertPeer { id: String, name: String },
    /// Reads a conversation from the history.
    LoadHistory { peer: String },
    /// Shows a notice of the system.
    Notify { title: String, body: String },
    FlashTaskbar,
    /// Whether something unread is marked in the tray.
    SetUnread(bool),
    /// Hands a command to the core.
    Send(UiCommand),
    /// Stores the messages of files that go out.
    StoreFiles { peer: String, msgs: Vec<ChatMessage> },
    ClearHistory { peer: String },
    DeleteMessages { ids: Vec<i64> },
    SaveConfig,
    HideWindow,
}

/// [`UiEffect`] as the contracts speak of it.
#[verifier::ext_equal]
pub enum UiEffectView {
    UpsertPeer { id: Seq<char>, name: Seq<char> },
    LoadHistory { peer: Seq<char> },
    Notify { title: Seq<char>, body: Seq<char> },
    FlashTaskbar,
    SetUnread(bool),
    Send(UiCommandView),
    StoreFiles { peer: Seq<char>, msgs: Seq<ChatMessageView> },
    ClearHistory { peer: Seq<char> },
    DeleteMessages { ids: Seq<i64> },
    SaveConfig,
    HideWindow,
}

impl DeepView for UiEffect {
    type V = UiEffectView;

    open spec fn deep_view(&self) -> UiEffectView {
        match self {
            UiEffect::UpsertPeer { id, name } => UiEffectView::UpsertPeer { id: id.deep_view(), name: name.deep_view() },
            UiEffect::LoadHistory { peer } => UiEffectView::LoadHistory { peer: peer.deep_view() },
            UiEffect::Notify { title, body } => UiEffectView::Notify { title: title.deep_view(), body: body.deep_view() },
            UiEffect::FlashTaskbar => UiEffectView::FlashTaskbar,
            UiEffect::SetUnread(a) => UiEffectView::SetUnread(a.deep_view()),
            UiEffect::Send(a) => UiEffectView::Send(a.deep_view()),
            UiEffect::StoreFiles { peer, msgs } => UiEffectView::StoreFiles { peer: peer.deep_view(), msgs: msgs.deep_view() },
            UiEffect::ClearHistory { peer } => UiEffectView::ClearHistory { peer: peer.deep_view() },
            UiEffect::DeleteMessages { ids } => UiEffectView::DeleteMessages { ids: ids.deep_view() },
            UiEffect::SaveConfig => UiEffectView::SaveConfig,
            UiEffect::HideWindow => UiEffectView::HideWindow,
        }
    }
}

/// What the user interface knows.
#[derive(Debug)]
pub struct UiState {
    pub config: Config,
    /// The system that the user interface runs on.
    pub system: System,
    pub devices: Vec<Device>,
    /// Names of devices, also of those that are gone.
    pub peer_names: TextMap<String>,
    pub selected: Option<String>,
    pub chats: TextMap<Vec<ChatMessage>>,
    /// Conversations that were read from the history.
    pub loaded: TextMap<bool>,
    pub unread: TextMap<u64>,
    pub transfers: Vec<TransferState>,
    pub incoming: Vec<IncomingReq>,
    pub toast: Option<Toast>,
    /// The conversation that a second click clears, and when the first was.
    pub confirm_clear: Option<(String, i64)>,
    /// The request whose files would replace others.
    pub overwrite_req: Option<IncomingReq>,
    pub show_settings: bool,
    pub show_connect: bool,
    pub show_web_qr: bool,
    pub show_close_dialog: bool,
    pub close_remember: bool,
    pub force_close: bool,
}

/// [`UiState`] as the contracts speak of it.
#[verifier::ext_equal]
pub struct UiView {
    pub config: ConfigView,
    pub system: System,
    pub devices: Seq<DeviceView>,
    pub peer_names: Map<Seq<char>, Seq<char>>,
    pub selected: Option<Seq<char>>,
    pub chats: Map<Seq<char>, Seq<ChatMessageView>>,
    pub loaded: Map<Seq<char>, bool>,
    pub unread: Map<Seq<char>, u64>,
    pub transfers: Seq<TransferStateView>,
    pub incoming: Seq<IncomingReqView>,
    pub toast: Option<ToastView>,
    pub confirm_clear: Option<(Seq<char>, i64)>,
    pub overwrite_req: Option<IncomingReqView>,
    pub show_settings: bool,
    pub show_connect: bool,
    pub show_web_qr: bool,
    pub show_close_dialog: bool,
    pub close_remember: bool,
    pub force_close: bool,
}

impl View for UiState {
    type V = UiView;

    open spec fn view(&self) -> UiView {
        UiView {
            config: self.config.deep_view(),
            system: self.system,
            devices: self.devices.deep_view(),
            peer_names: self.peer_names@,
            selected: self.selected.deep_view(),
            chats: self.chats@,
            loaded: self.loaded@,
            unread: self.unread@,
            transfers: self.transfers.deep_view(),
            incoming: self.incoming.deep_view(),
            toast: self.toast.deep_view(),
            confirm_clear: self.confirm_clear.deep_view(),
            overwrite_req: self.overwrite_req.deep_view(),
            show_settings: self.show_settings,
            show_connect: self.show_connect,
            show_web_qr: self.show_web_qr,
            show_close_dialog: self.show_close_dialog,
            close_remember: self.close_remember,
            force_close: self.force_close,
        }
    }
}

/// The first characters of an id stand for a device without a name.
pub open spec fn short_id_text(id: Seq<char>) -> Seq<char> {
    text::first_chars(id, 8)
}

pub fn short_id(id: &str) -> (r: String)
    ensures
        r@ == short_id_text(id@),
{
    take_chars(id, 8)
}

pub open spec fn device_at(s: Seq<DeviceView>, id: Seq<char>, i: int) -> bool {
    &&& 0 <= i < s.len()
    &&& s[i].info.id == id
    &&& forall|j: int| 0 <= j < i ==> (#[trigger] s[j]).info.id != id
}

/// The first device with this id.
pub open spec fn device_index(s: Seq<DeviceView>, id: Seq<char>) -> Option<int> {
    if exists|i: int| device_at(s, id, i) {
        Some(choose|i: int| device_at(s, id, i))
    } else {
        None
    }
}

pub open spec fn is_online(s: Seq<DeviceView>, id: Seq<char>) -> bool {
    exists|i: int| 0 <= i < s.len() && (#[trigger] s[i]).info.id == id && s[i].online
}

/// The name that a device goes by.
pub open spec fn name_of_peer(v: UiView, id: Seq<char>) -> Seq<char> {
    match device_index(v.devices, id) {
        Some(i) => v.devices[i].info.name,
        None => if v.peer_names.dom().contains(id) {
            v.peer_names[id]
        } else {
            short_id_text(id)
        },
    }
}

/// Whether a conversation with unread messages can be opened: one with a
/// device that is online, or the one with browsers.
pub open spec fn has_visible_unread(v: UiView) -> bool {
    exists|id: Seq<char>|
        #[trigger] v.unread.dom().contains(id) && v.unread[id] > 0 && (id == WEB_PEER_ID@
            || is_online(v.devices, id))
}

/// The state after a conversation was opened.
pub open spec fn after_select(v: UiView, peer: Seq<char>) -> UiView {
    if v.selected == Some(peer) {
        v
    } else {
        UiView {
            selected: Some(peer),
            unread: v.unread.insert(peer, 0),
            loaded: v.loaded.insert(peer, true),
            ..v
        }
    }
}

/// What opening a conversation asks for: the mark in the tray, and the
/// history where it was not read yet.
pub open spec fn select_effects(v: UiView, peer: Seq<char>) -> Seq<UiEffectView> {
    if v.selected == Some(peer) {
        Seq::empty()
    } else {
        let mark = seq![UiEffectView::SetUnread(has_visible_unread(after_select(v, peer)))];
        if v.loaded.dom().contains(peer) {
            mark
        } else {
            mark.push(UiEffectView::LoadHistory { peer })
        }
    }
}

proof fn lemma_device_at(s: Seq<DeviceView>, id: Seq<char>, i: int)
    requires
        device_at(s, id, i),
    ensures
        device_index(s, id) == Some(i),
{
    let p = choose|p: int| device_at(s, id, p);
    assert(device_at(s, id, p));
    if p < i {
        assert(s[p].info.id != id);
    } else if i < p {
        assert(s[i].info.id != id);
    }
}

/// Where a device stands, if it is there.
pub fn find_device(devices: &Vec<Device>, id: &str) -> (r: Option<usize>)
    ensures
        match r {
            Some(i) => device_index(devices.deep_view(), id@) == Some(i as int) && i
                < devices@.len(),
            None => device_index(devices.deep_view(), id@) is None,
        },
{
    let ghost all = devices.deep_view();
    let mut i: usize = 0;
    while i < devices.len()
        invariant
            all == devices.deep_view(),
            i <= devices@.len(),
            forall|k: int| 0 <= k < i ==> (#[trigger] all[k]).info.id != id@,
        decreases devices@.len() - i,
    {
        assert(all[i as int] == devices@[i as int].deep_view());
        if same_text(devices[i].info.id.as_str(), id) {
            proof {
                assert(device_at(all, id@, i as int));
                lemma_device_at(all, id@, i as int);
            }
            return Some(i);
        }
        i = i + 1;
    }
    None
}

fn push_effect(effects: &mut Vec<UiEffect>, e: UiEffect)
    ensures
        final(effects).deep_view() == old(effects).deep_view().push(e.deep_view()),
{
    let ghost before = effects.deep_view();
    effects.push(e);
    assert(effects.deep_view() =~= before.push(e.deep_view()));
}

fn no_effects() -> (r: Vec<UiEffect>)
    ensures
        r.deep_view() == Seq::<UiEffectView>::empty(),
{
    let r: Vec<UiEffect> = Vec::new();
    assert(r.deep_view() =~= Seq::<UiEffectView>::empty());
    r
}

impl UiState {
    pub open spec fn wf(&self) -> bool {
        &&& self.peer_names.wf()
        &&& self.chats.wf()
        &&& self.loaded.wf()
        &&& self.unread.wf()
    }

    pub fn new(config: Config, peer_names: TextMap<String>, system: System) -> (r: Self)
        requires
            peer_names.wf(),
        ensures
            r.wf(),
            r@ == (UiView {
                config: config.deep_view(),
                system,
                devices: Seq::empty(),
                peer_names: peer_names@,
                selected: None,
                chats: Map::empty(),
                loaded: Map::empty(),
                unread: Map::empty(),
                transfers: Seq::empty(),
                incoming: Seq::empty(),
                toast: None,
                confirm_clear: None,
                overwrite_req: None,
                show_settings: false,
                show_connect: false,
                show_web_qr: false,
                show_close_dialog: false,
                close_remember: false,
                force_close: false,
            }),
    {
        let r = UiState {
            config,
            system,
            devices: Vec::new(),
            peer_names,
            selected: None,
            chats: TextMap::new(),
            loaded: TextMap::new(),
            unread: TextMap::new(),
            transfers: Vec::new(),
            incoming: Vec::new(),
            toast: None,
            confirm_clear: None,
            overwrite_req: None,
            show_settings: false,
            show_connect: false,
            show_web_qr: false,
            show_close_dialog: false,
            close_remember: false,
            force_close: false,
        };
        assert(r.devices.deep_view() =~= Seq::<DeviceView>::empty());
        assert(r.transfers.deep_view() =~= Seq::<TransferStateView>::empty());
        assert(r.incoming.deep_view() =~= Seq::<IncomingReqView>::empty());
        r
    }

    pub fn peer_name(&self, id: &str) -> (r: String)
        requires
            self.wf(),
        ensures
            r@ == name_of_peer(self@, id@),
    {
        match find_device(&self.devices, id) {
            Some(i) => {
                assert(self@.devices[i as int] == self.devices@[i as int].deep_view());
                self.devices[i].info.name.clone()
            },
            None => match self.peer_names.get(id) {
                Some(n) => n.clone(),
                None => short_id(id),
            },
        }
    }

    fn online(&self, id: &str) -> (r: bool)
        ensures
            r == is_online(self@.devices, id@),
    {
        let ghost all = self@.devices;
        let mut i: usize = 0;
        while i < self.devices.len()
            invariant
                all == self@.devices,
                i <= self.devices@.len(),
                forall|k: int|
                    0 <= k < i ==> !((#[trigger] all[k]).info.id == id@ && all[k].online),
            decreases self.devices@.len() - i,
        {
            assert(all[i as int] == self.devices@[i as int].deep_view());
            if same_text(self.devices[i].info.id.as_str(), id) && self.devices[i].online {
                return true;
            }
            i = i + 1;
        }
        false
    }

    /// Whether the tray marks something unread.
    pub fn visible_unread(&self) -> (r: bool)
        requires
            self.wf(),
        ensures
            r == has_visible_unread(self@),
    {
        let mut i: usize = 0;
        while i < self.unread.entries.len()
            invariant
                self.wf(),
                i <= self.unread.entries@.len(),
                forall|k: int|
                    0 <= k < i ==> !((#[trigger] self.unread.entries@[k]).1 > 0 && (
                    self.unread.entries@[k].0@ == WEB_PEER_ID@ || is_online(
                        self@.devices,
                        self.unread.entries@[k].0@,
                    ))),
            decreases self.unread.entries@.len() - i,
        {
            let e = &self.unread.entries[i];
            if e.1 > 0 && (same_text(e.0.as_str(), WEB_PEER_ID) || self.online(e.0.as_str())) {
                proof {
                    assert(self.unread.is_at(e.0@, i as int));
                    self.unread.lemma_at(e.0@, i as int);
                    assert(self@.unread.dom().contains(e.0@));
                    assert(self@.unread[e.0@] > 0);
                }
                return true;
            }
            i = i + 1;
        }
        proof {
            assert forall|id: Seq<char>| #[trigger]
                self@.unread.dom().contains(id) && self@.unread[id] > 0 implies !(id
                == WEB_PEER_ID@ || is_online(self@.devices, id)) by {
                let p = self.unread.place(id);
                assert(self.unread.is_at(id, p));
                self.unread.lemma_at(id, p);
                assert(!(self.unread.entries@[p].1 > 0 && (self.unread.entries@[p].0@
                    == WEB_PEER_ID@ || is_online(self@.devices, self.unread.entries@[p].0@))));
            }
        }
        false
    }

    fn is_selected(&self, peer: &str) -> (r: bool)
        ensures
            r == (self@.selected == Some(peer@)),
    {
        match &self.selected {
            Some(s) => same_text(s.as_str(), peer),
            None => false,
        }
    }

    /// Opens a conversation.
    pub fn select_peer(&mut self, peer: &str) -> (r: Vec<UiEffect>)
        requires
            old(self).wf(),
        ensures
            final(self).wf(),
            final(self)@ == after_select(old(self)@, peer@),
            r.deep_view() == select_effects(old(self)@, peer@),
    {
        let mut effects = no_effects();
        if self.is_selected(peer) {
            return effects;
        }
        self.selected = Some(peer.to_owned());
        self.unread.insert(peer, 0);
        let first = !self.loaded.contains(peer);
        self.loaded.insert(peer, true);
        let mark = self.visible_unread();
        push_effect(&mut effects, UiEffect::SetUnread(mark));
        if first {
            push_effect(&mut effects, UiEffect::LoadHistory { peer: peer.to_owned() });
        }
        assert(effects.deep_view() =~= select_effects(old(self)@, peer@));
        effects
    }

    /// The history of a conversation was read.
    pub fn history_loaded(&mut self, peer: &str, msgs: Vec<ChatMessage>)
        requires
            old(self).wf(),
        ensures
            final(self).wf(),
            final(self)@ == (UiView {
                chats: old(self)@.chats.insert(peer@, msgs.deep_view()),
                ..old(self)@
            }),
    {
        self.chats.insert(peer, msgs);
    }

    pub fn set_toast(&mut self, t: String, is_error: bool, now: i64)
        requires
            old(self).wf(),
        ensures
            final(self).wf(),
            final(self)@ == with_toast(old(self)@, t@, is_error, now),
    {
        self.toast = Some(Toast { text: t, at_ms: now, is_error });
    }

    /// Takes a notice away that was shown long enough.
    pub fn expire_toast(&mut self, now: i64)
        requires
            old(self).wf(),
        ensures
            final(self).wf(),
            final(self)@ == (match old(self)@.toast {
                Some(t) => if now - t.at_ms >= TOAST_MS {
                    UiView { toast: None, ..old(self)@ }
                } else {
                    old(self)@
                },
                None => old(self)@,
            }),
    {
        let over = match &self.toast {
            Some(t) => now as i128 - t.at_ms as i128 >= TOAST_MS as i128,
            None => false,
        };
        if over {
            self.toast = None;
        }
    }
}

pub open spec fn with_toast(v: UiView, t: Seq<char>, is_error: bool, now: i64) -> UiView {
    UiView { toast: Some(ToastView { text: t, at_ms: now, is_error }), ..v }
}

// ---------------------------------------------------------------------------
// Devices
// ---------------------------------------------------------------------------

/// The devices with one of them as it now is.
pub open spec fn with_device(s: Seq<DeviceView>, d: DeviceView) -> Seq<DeviceView> {
    match device_index(s, d.info.id) {
        Some(i) => s.update(i, d),
        None => s.push(d),
    }
}

/// The devices with one of them offline.
pub open spec fn without_online(s: Seq<DeviceView>, id: Seq<char>) -> Seq<DeviceView> {
    match device_index(s, id) {
        Some(i) => s.update(i, discovery::set_offline(s[i])),
        None => s,
    }
}

/// The state when a device has come up, before the first one is opened.
pub open spec fn device_listed(v: UiView, d: DeviceView) -> UiView {
    UiView { devices: discovery::by_last_seen(with_device(v.devices, d)), ..v }
}

/// The state after a device has come up: it is in the list, its name is
/// remembered, and its conversation is opened where none was.
pub open spec fn after_device_up(v: UiView, d: DeviceView) -> UiView {
    let listed = device_listed(v, d);
    let opened = if v.selected is None {
        after_select(listed, d.info.id)
    } else {
        listed
    };
    UiView { peer_names: v.peer_names.insert(d.info.id, d.info.name), ..opened }
}

pub open spec fn device_up_effects(v: UiView, d: DeviceView) -> Seq<UiEffectView> {
    let listed = device_listed(v, d);
    let first = seq![
        UiEffectView::SetUnread(has_visible_unread(listed)),
        UiEffectView::UpsertPeer { id: d.info.id, name: d.info.name },
    ];
    if v.selected is None {
        first + select_effects(listed, d.info.id)
    } else {
        first
    }
}

pub open spec fn after_device_down(v: UiView, id: Seq<char>) -> UiView {
    UiView { devices: without_online(v.devices, id), ..v }
}

fn append_effects(a: &mut Vec<UiEffect>, b: Vec<UiEffect>)
    ensures
        final(a).deep_view() == old(a).deep_view() + b.deep_view(),
{
    let ghost x = a.deep_view();
    let ghost y = b.deep_view();
    let mut b = b;
    a.append(&mut b);
    assert(a.deep_view() =~= x + y);
}

impl UiState {
    pub fn device_up(&mut self, dev: Device) -> (r: Vec<UiEffect>)
        requires
            old(self).wf(),
        ensures
            final(self).wf(),
            final(self)@ == after_device_up(old(self)@, dev.deep_view()),
            r.deep_view() == device_up_effects(old(self)@, dev.deep_view()),
    {
        let id = dev.info.id.clone();
        let name = dev.info.name.clone();
        let ghost all = self@.devices;
        let ghost d = dev.deep_view();
        match find_device(&self.devices, id.as_str()) {
            Some(i) => {
                self.devices[i] = dev;
                assert(self@.devices =~= all.update(i as int, d));
            },
            None => {
                self.devices.push(dev);
                assert(self@.devices =~= all.push(d));
            },
        }
        self.devices = sort_by_last_seen(&self.devices);
        let mut effects = no_effects();
        let mark = self.visible_unread();
        push_effect(&mut effects, UiEffect::SetUnread(mark));
        push_effect(&mut effects, UiEffect::UpsertPeer { id: id.clone(), name: name.clone() });
        let none = match &self.selected {
            Some(_) => false,
            None => true,
        };
        if none {
            let more = self.select_peer(id.as_str());
            append_effects(&mut effects, more);
        }
        self.peer_names.insert(id.as_str(), name);
        assert(effects.deep_view() =~= device_up_effects(old(self)@, d));
        effects
    }

    pub fn device_down(&mut self, id: &str) -> (r: Vec<UiEffect>)
        requires
            old(self).wf(),
        ensures
            final(self).wf(),
            final(self)@ == after_device_down(old(self)@, id@),
            r.deep_view() == seq![UiEffectView::SetUnread(has_visible_unread(final(self)@))],
    {
        let ghost all = self@.devices;
        match find_device(&self.devices, id) {
            Some(i) => {
                assert(all[i as int] == self.devices@[i as int].deep_view());
                let off = Device {
                    info: self.devices[i].info.clone(),
                    addr: self.devices[i].addr.clone(),
                    online: false,
                    last_seen_ms: self.devices[i].last_seen_ms,
                };
                self.devices[i] = off;
                assert(self@.devices =~= all.update(i as int, off.deep_view()));
            },
            None => {},
        }
        let mut effects = no_effects();
        let mark = self.visible_unread();
        push_effect(&mut effects, UiEffect::SetUnread(mark));
        assert(effects.deep_view() =~= seq![
            UiEffectView::SetUnread(has_visible_unread(self@)),
        ]);
        effects
    }
}

// ---------------------------------------------------------------------------
// Messages
// ---------------------------------------------------------------------------

pub open spec fn chat_of(v: UiView, peer: Seq<char>) -> Seq<ChatMessageView> {
    if v.chats.dom().contains(peer) {
        v.chats[peer]
    } else {
        Seq::empty()
    }
}

pub open spec fn unread_of(v: UiView, peer: Seq<char>) -> u64 {
    if v.unread.dom().contains(peer) {
        v.unread[peer]
    } else {
        0
    }
}

pub open spec fn one_more(n: u64) -> u64 {
    if n < u64::MAX {
        (n + 1) as u64
    } else {
        n
    }
}

/// Whether a message counts as unread: its conversation is not open, or the
/// window is not in front.
pub open spec fn is_unread(v: UiView, peer: Seq<char>, foreground: bool) -> bool {
    v.selected != Some(peer) || !foreground
}

pub open spec fn after_message(v: UiView, msg: ChatMessageView, foreground: bool) -> UiView {
    let counted = if is_unread(v, msg.peer_id, foreground) {
        v.unread.insert(msg.peer_id, one_more(unread_of(v, msg.peer_id)))
    } else {
        v.unread
    };
    UiView {
        unread: counted,
        chats: v.chats.insert(msg.peer_id, chat_of(v, msg.peer_id).push(msg)),
        ..v
    }
}

/// What a message asks for: the mark in the tray where it is unread, and with
/// the window in the background a notice of a text, and a flash.
pub open spec fn message_effects(v: UiView, msg: ChatMessageView, foreground: bool) -> Seq<
    UiEffectView,
> {
    let mark = if is_unread(v, msg.peer_id, foreground) {
        seq![UiEffectView::SetUnread(has_visible_unread(after_message(v, msg, foreground)))]
    } else {
        Seq::empty()
    };
    if foreground {
        mark
    } else {
        let told = match msg.kind {
            MessageKindView::Text(t) => mark.push(
                UiEffectView::Notify {
                    title: name_of_peer(v, msg.peer_id),
                    body: text::first_chars(t, 40),
                },
            ),
            _ => mark,
        };
        told.push(UiEffectView::FlashTaskbar)
    }
}

impl UiState {
    /// Adds messages at the end of a conversation.
    pub fn append_messages(&mut self, peer: &str, msgs: Vec<ChatMessage>)
        requires
            old(self).wf(),
        ensures
            final(self).wf(),
            final(self)@ == (UiView {
                chats: old(self)@.chats.insert(
                    peer@,
                    chat_of(old(self)@, peer@) + msgs.deep_view(),
                ),
                ..old(self)@
            }),
    {
        let mut chat = match self.chats.remove(peer) {
            Some(c) => c,
            None => {
                let c: Vec<ChatMessage> = Vec::new();
                assert(c.deep_view() =~= Seq::<ChatMessageView>::empty());
                c
            },
        };
        let ghost before = chat.deep_view();
        let ghost added = msgs.deep_view();
        let mut msgs = msgs;
        chat.append(&mut msgs);
        assert(chat.deep_view() =~= before + added);
        self.chats.insert(peer, chat);
        assert(self@.chats =~= old(self)@.chats.insert(
            peer@,
            chat_of(old(self)@, peer@) + added,
        ));
    }

    pub fn unread_count(&self, peer: &str) -> (r: u64)
        requires
            self.wf(),
        ensures
            r == unread_of(self@, peer@),
    {
        match self.unread.get(peer) {
            Some(n) => *n,
            None => 0,
        }
    }

    pub fn message_received(&mut self, msg: ChatMessage, foreground: bool) -> (r: Vec<UiEffect>)
        requires
            old(self).wf(),
        ensures
            final(self).wf(),
            final(self)@ == after_message(old(self)@, msg.deep_view(), foreground),
            r.deep_view() == message_effects(old(self)@, msg.deep_view(), foreground),
    {
        let ghost m = msg.deep_view();
        let peer = msg.peer_id.clone();
        let mut effects = no_effects();
        let unread = !self.is_selected(peer.as_str()) || !foreground;
        if unread {
            let n = self.unread_count(peer.as_str());
            let more: u64 = if n < u64::MAX {
                n + 1
            } else {
                n
            };
            self.unread.insert(peer.as_str(), more);
            proof {
                let after = after_message(old(self)@, m, foreground);
                assert(self@.unread == after.unread);
                assert(has_visible_unread(self@) == has_visible_unread(after));
            }
            let mark = self.visible_unread();
            push_effect(&mut effects, UiEffect::SetUnread(mark));
        }
        if !foreground {
            let name = self.peer_name(peer.as_str());
            match &msg.kind {
                MessageKind::Text(t) => {
                    let body = take_chars(t.as_str(), 40);
                    push_effect(&mut effects, UiEffect::Notify { title: name, body });
                },
                _ => {},
            }
            push_effect(&mut effects, UiEffect::FlashTaskbar);
        }
        let mut one: Vec<ChatMessage> = Vec::new();
        one.push(msg);
        assert(one.deep_view() =~= seq![m]);
        self.append_messages(peer.as_str(), one);
        proof {
            let v = old(self)@;
            assert(chat_of(v, peer@) + seq![m] =~= chat_of(v, peer@).push(m));
            assert(self@ =~= after_message(v, m, foreground));
            assert(effects.deep_view() =~= message_effects(v, m, foreground));
        }
        effects
    }
}

// ---------------------------------------------------------------------------
// Requests
// ---------------------------------------------------------------------------

/// The requests but those with this id.
pub open spec fn without_req(s: Seq<IncomingReqView>, id: Seq<char>) -> Seq<IncomingReqView>
    decreases s.len(),
{
    if s.len() == 0 {
        Seq::empty()
    } else {
        let head = without_req(s.drop_last(), id);
        if s.last().req_id == id {
            head
        } else {
            head.push(s.last())
        }
    }
}

pub open spec fn accept_all(req_id: Seq<char>) -> UiCommandView {
    UiCommandView::RespondRequest { req_id, accept: true, save_dir: None, overwrite: false }
}

/// The state after a request: taken at once where the user wants that, else
/// put to the user in its conversation.
pub open spec fn after_request(v: UiView, req: IncomingReqView, now: i64) -> UiView {
    if v.config.auto_receive {
        with_toast(
            v,
            "自动接收 "@ + req.peer.info.name + " 的 "@ + text::decimal(req.files.len())
                + " 个文件"@,
            false,
            now,
        )
    } else {
        after_select(UiView { incoming: v.incoming.push(req), ..v }, req.peer.info.id)
    }
}

pub open spec fn request_effects(v: UiView, req: IncomingReqView, foreground: bool) -> Seq<
    UiEffectView,
> {
    let told = if foreground {
        Seq::empty()
    } else {
        seq![
            UiEffectView::Notify {
                title: req.peer.info.name + " 想发送文件"@,
                body: text::decimal(req.files.len()) + " 个文件 · 点击处理"@,
            },
            UiEffectView::FlashTaskbar,
            UiEffectView::SetUnread(has_visible_unread(v)),
        ]
    };
    if v.config.auto_receive {
        told.push(UiEffectView::Send(accept_all(req.req_id)))
    } else {
        told + select_effects(UiView { incoming: v.incoming.push(req), ..v }, req.peer.info.id)
    }
}

fn drop_req(s: &Vec<IncomingReq>, id: &str) -> (r: Vec<IncomingReq>)
    ensures
        r.deep_view() == without_req(s.deep_view(), id@),
{
    let ghost all = s.deep_view();
    let mut out: Vec<IncomingReq> = Vec::new();
    let mut i: usize = 0;
    assert(all.take(0) =~= Seq::<IncomingReqView>::empty());
    assert(out.deep_view() =~= Seq::<IncomingReqView>::empty());
    while i < s.len()
        invariant
            all == s.deep_view(),
            i <= s@.len(),
            out.deep_view() == without_req(all.take(i as int), id@),
        decreases s@.len() - i,
    {
        proof {
            assert(all[i as int] == s@[i as int].deep_view());
            assert(all.take(i + 1).drop_last() =~= all.take(i as int));
            assert(all.take(i + 1).last() == all[i as int]);
        }
        if !same_text(s[i].req_id.as_str(), id) {
            let ghost before = out.deep_view();
            let q = s[i].clone();
            out.push(q);
            assert(out.deep_view() =~= before.push(all[i as int]));
        }
        i = i + 1;
    }
    assert(all.take(i as int) =~= all);
    out
}

impl UiState {
    pub fn request_received(&mut self, req: IncomingReq, foreground: bool, now: i64) -> (r: Vec<
        UiEffect,
    >)
        requires
            old(self).wf(),
        ensures
            final(self).wf(),
            final(self)@ == after_request(old(self)@, req.deep_view(), now),
            r.deep_view() == request_effects(old(self)@, req.deep_view(), foreground),
    {
        let ghost q = req.deep_view();
        let mut effects = no_effects();
        let count = to_decimal(req.files.len() as u64);
        assert(req.files.deep_view().len() == req.files@.len());
        if !foreground {
            let title = cat(req.peer.info.name.as_str(), " 想发送文件");
            let body = cat(count.as_str(), " 个文件 · 点击处理");
            push_effect(&mut effects, UiEffect::Notify { title, body });
            push_effect(&mut effects, UiEffect::FlashTaskbar);
            let mark = self.visible_unread();
            push_effect(&mut effects, UiEffect::SetUnread(mark));
        }
        if self.config.auto_receive {
            push_effect(
                &mut effects,
                UiEffect::Send(
                    UiCommand::RespondRequest {
                        req_id: req.req_id.clone(),
                        accept: true,
                        save_dir: None,
                        overwrite: false,
                    },
                ),
            );
            let mut t = cat3("自动接收 ", req.peer.info.name.as_str(), " 的 ");
            t.append(count.as_str());
            t.append(" 个文件");
            self.set_toast(t, false, now);
        } else {
            let peer = req.peer.info.id.clone();
            let ghost before = self@.incoming;
            self.incoming.push(req);
            assert(self@.incoming =~= before.push(q));
            let more = self.select_peer(peer.as_str());
            append_effects(&mut effects, more);
        }
        assert(effects.deep_view() =~= request_effects(old(self)@, q, foreground));
        effects
    }

    /// A request is no longer up for decision.
    pub fn request_expired(&mut self, req_id: &str)
        requires
            old(self).wf(),
        ensures
            final(self).wf(),
            final(self)@ == (UiView {
                incoming: without_req(old(self)@.incoming, req_id@),
                ..old(self)@
            }),
    {
        self.incoming = drop_req(&self.incoming, req_id);
    }
}

// ---------------------------------------------------------------------------
// Transfers
// ---------------------------------------------------------------------------

/// Where the `i`-th file of a sender lies.
pub open spec fn source_at(sources: Seq<Seq<char>>, i: int) -> Option<Seq<char>> {
    if i < sources.len() && sources[i].len() > 0 {
        Some(sources[i])
    } else {
        None
    }
}

/// The files of a transfer that has just begun. A receiver names no sources.
pub open spec fn fresh_files(files: Seq<FileMetaView>, sources: Seq<Seq<char>>) -> Seq<
    TransferFileView,
> {
    Seq::new(
        files.len(),
        |i: int|
            TransferFileView {
                meta: files[i],
                transferred: 0,
                done: false,
                saved_path: None,
                source: source_at(sources, i),
            },
    )
}

pub open spec fn fresh_transfer(
    id: Seq<char>,
    peer_id: Seq<char>,
    files: Seq<FileMetaView>,
    sources: Seq<Seq<char>>,
) -> TransferStateView {
    TransferStateView {
        id,
        peer_id,
        files: fresh_files(files, sources),
        error: None,
        last_sample: None,
        rate: None,
    }
}

/// The newest transfer first, and not too many.
pub open spec fn with_transfer(s: Seq<TransferStateView>, t: TransferStateView) -> Seq<
    TransferStateView,
> {
    let all = s.insert(0, t);
    if all.len() > TRANSFER_LIMIT {
        all.take(TRANSFER_LIMIT as int)
    } else {
        all
    }
}

/// The messages of files that go out, before the history numbers them.
pub open spec fn sent_messages(
    id: Seq<char>,
    peer_id: Seq<char>,
    files: Seq<FileMetaView>,
    sources: Seq<Seq<char>>,
    now: i64,
) -> Seq<ChatMessageView> {
    Seq::new(
        files.len(),
        |i: int|
            ChatMessageView {
                id: 0,
                peer_id,
                outgoing: true,
                kind: MessageKindView::File {
                    name: files[i].name,
                    size: files[i].size,
                    saved_path: source_at(sources, i),
                    transfer_id: Some(id),
                    file_id: Some(files[i].id),
                },
                created_at: now,
            },
    )
}

fn pick_source(sources: &Vec<String>, i: usize) -> (r: Option<String>)
    ensures
        r.deep_view() == source_at(sources.deep_view(), i as int),
{
    if i < sources.len() {
        assert(sources.deep_view()[i as int] == sources@[i as int]@);
        let v = chars_of(sources[i].as_str());
        if v.len() > 0 {
            Some(sources[i].clone())
        } else {
            None
        }
    } else {
        None
    }
}

impl UiState {
    pub fn transfer_started(
        &mut self,
        id: &str,
        peer_id: &str,
        outgoing: bool,
        files: &Vec<FileMeta>,
        sources: &Vec<String>,
        now: i64,
    ) -> (r: Vec<UiEffect>)
        requires
            old(self).wf(),
        ensures
            final(self).wf(),
            final(self)@ == (UiView {
                transfers: with_transfer(
                    old(self)@.transfers,
                    fresh_transfer(id@, peer_id@, files.deep_view(), sources.deep_view()),
                ),
                ..old(self)@
            }),
            r.deep_view() == (if outgoing {
                seq![
                    UiEffectView::StoreFiles {
                        peer: peer_id@,
                        msgs: sent_messages(
                            id@,
                            peer_id@,
                            files.deep_view(),
                            sources.deep_view(),
                            now,
                        ),
                    },
                ]
            } else {
                Seq::empty()
            }),
    {
        let ghost fv = files.deep_view();
        let ghost sv = sources.deep_view();
        let ghost wanted = fresh_files(fv, sv);
        let ghost msgs_wanted = sent_messages(id@, peer_id@, fv, sv, now);
        let mut list: Vec<TransferFile> = Vec::new();
        let mut msgs: Vec<ChatMessage> = Vec::new();
        let mut i: usize = 0;
        while i < files.len()
            invariant
                fv == files.deep_view(),
                sv == sources.deep_view(),
                wanted == fresh_files(fv, sv),
                msgs_wanted == sent_messages(id@, peer_id@, fv, sv, now),
                i <= files@.len(),
                list.deep_view() =~= wanted.take(i as int),
                msgs.deep_view() =~= msgs_wanted.take(i as int),
            decreases files@.len() - i,
        {
            let f = &files[i];
            assert(fv[i as int] == f.deep_view());
            let ghost list_before = list.deep_view();
            let ghost msgs_before = msgs.deep_view();
            let source = pick_source(sources, i);
            let msg = ChatMessage {
                id: 0,
                peer_id: peer_id.to_owned(),
                outgoing: true,
                kind: MessageKind::File {
                    name: f.name.clone(),
                    size: f.size,
                    saved_path: source.clone(),
                    transfer_id: Some(id.to_owned()),
                    file_id: Some(f.id.clone()),
                },
                created_at: now,
            };
            msgs.push(msg);
            assert(msgs.deep_view() =~= msgs_before.push(msgs_wanted[i as int]));
            let file = TransferFile {
                meta: f.clone(),
                transferred: 0,
                done: false,
                saved_path: None,
                source,
            };
            list.push(file);
            assert(list.deep_view() =~= list_before.push(wanted[i as int]));
            i = i + 1;
        }
        assert(list.deep_view() =~= wanted);
        assert(msgs.deep_view() =~= msgs_wanted);
        let ghost before = self@.transfers;
        let t = TransferState {
            id: id.to_owned(),
            peer_id: peer_id.to_owned(),
            files: list,
            error: None,
            last_sample: None,
            rate: None,
        };
        self.transfers.insert(0, t);
        assert(self@.transfers =~= before.insert(0, t.deep_view()));
        if self.transfers.len() > TRANSFER_LIMIT {
            let ghost all = self@.transfers;
            self.transfers.truncate(TRANSFER_LIMIT);
            assert(self@.transfers =~= all.take(TRANSFER_LIMIT as int));
        }
        let mut effects = no_effects();
        if outgoing {
            push_effect(&mut effects, UiEffect::StoreFiles { peer: peer_id.to_owned(), msgs });
            assert(effects.deep_view() =~= seq![
                UiEffectView::StoreFiles { peer: peer_id@, msgs: msgs_wanted },
            ]);
        }
        effects
    }
}

pub open spec fn transfer_at(s: Seq<TransferStateView>, id: Seq<char>, i: int) -> bool {
    &&& 0 <= i < s.len()
    &&& s[i].id == id
    &&& forall|j: int| 0 <= j < i ==> (#[trigger] s[j]).id != id
}

/// The newest transfer with this id.
pub open spec fn transfer_index(s: Seq<TransferStateView>, id: Seq<char>) -> Option<int> {
    if exists|i: int| transfer_at(s, id, i) {
        Some(choose|i: int| transfer_at(s, id, i))
    } else {
        None
    }
}

pub open spec fn file_at(s: Seq<TransferFileView>, id: Seq<char>, i: int) -> bool {
    &&& 0 <= i < s.len()
    &&& s[i].meta.id == id
    &&& forall|j: int| 0 <= j < i ==> (#[trigger] s[j]).meta.id != id
}

pub open spec fn file_index(s: Seq<TransferFileView>, id: Seq<char>) -> Option<int> {
    if exists|i: int| file_at(s, id, i) {
        Some(choose|i: int| file_at(s, id, i))
    } else {
        None
    }
}

pub fn find_transfer(s: &Vec<TransferState>, id: &str) -> (r: Option<usize>)
    ensures
        match r {
            Some(i) => transfer_index(s.deep_view(), id@) == Some(i as int) && i < s@.len(),
            None => transfer_index(s.deep_view(), id@) is None,
        },
{
    let ghost all = s.deep_view();
    let mut i: usize = 0;
    while i < s.len()
        invariant
            all == s.deep_view(),
            i <= s@.len(),
            forall|k: int| 0 <= k < i ==> (#[trigger] all[k]).id != id@,
        decreases s@.len() - i,
    {
        assert(all[i as int] == s@[i as int].deep_view());
        if same_text(s[i].id.as_str(), id) {
            proof {
                assert(transfer_at(all, id@, i as int));
                let p = choose|p: int| transfer_at(all, id@, p);
                assert(transfer_at(all, id@, p));
                assert(p == i) by {
                    if p < i {
                        assert(all[p].id != id@);
                    } else if i < p {
                        assert(all[i as int].id != id@);
                    }
                }
            }
            return Some(i);
        }
        i = i + 1;
    }
    None
}

pub fn find_file(s: &Vec<TransferFile>, id: &str) -> (r: Option<usize>)
    ensures
        match r {
            Some(i) => file_index(s.deep_view(), id@) == Some(i as int) && i < s@.len(),
            None => file_index(s.deep_view(), id@) is None,
        },
{
    let ghost all = s.deep_view();
    let mut i: usize = 0;
    while i < s.len()
        invariant
            all == s.deep_view(),
            i <= s@.len(),
            forall|k: int| 0 <= k < i ==> (#[trigger] all[k]).meta.id != id@,
        decreases s@.len() - i,
    {
        assert(all[i as int] == s@[i as int].deep_view());
        if same_text(s[i].meta.id.as_str(), id) {
            proof {
                assert(file_at(all, id@, i as int));
                let p = choose|p: int| file_at(all, id@, p);
                assert(file_at(all, id@, p));
                assert(p == i) by {
                    if p < i {
                        assert(all[p].meta.id != id@);
                    } else if i < p {
                        assert(all[i as int].meta.id != id@);
                    }
                }
            }
            return Some(i);
        }
        i = i + 1;
    }
    None
}

pub open spec fn total_of(s: Seq<TransferFileView>) -> nat
    decreases s.len(),
{
    if s.len() == 0 {
        0
    } else {
        total_of(s.drop_last()) + s.last().meta.size as nat
    }
}

pub open spec fn moved_of(s: Seq<TransferFileView>) -> nat
    decreases s.len(),
{
    if s.len() == 0 {
        0
    } else {
        moved_of(s.drop_last()) + s.last().transferred as nat
    }
}

pub open spec fn all_done_of(s: Seq<TransferFileView>) -> bool {
    forall|i: int| 0 <= i < s.len() ==> (#[trigger] s[i]).done
}

impl TransferState {
    pub fn total_bytes(&self) -> (r: u128)
        ensures
            r == total_of(self.files.deep_view()),
    {
        let ghost all = self.files.deep_view();
        let n: usize = self.files.len();
        let mut sum: u128 = 0;
        let mut i: usize = 0;
        assert(all.take(0) =~= Seq::<TransferFileView>::empty());
        while i < n
            invariant
                n == self.files@.len(),
                all == self.files.deep_view(),
                i <= n,
                sum == total_of(all.take(i as int)),
                sum <= i * 0xffff_ffff_ffff_ffff,
            decreases n - i,
        {
            proof {
                assert(all[i as int] == self.files@[i as int].deep_view());
                assert(all.take(i + 1).drop_last() =~= all.take(i as int));
                assert(all.take(i + 1).last() == all[i as int]);
                assert(i * 0xffff_ffff_ffff_ffff + 0xffff_ffff_ffff_ffff == (i + 1)
                    * 0xffff_ffff_ffff_ffff) by (nonlinear_arith);
                assert((i + 1) * 0xffff_ffff_ffff_ffff
                    <= 0x1_0000_0000_0000_0000 * 0xffff_ffff_ffff_ffff) by (nonlinear_arith)
                    requires
                        i < n,
                        n <= 0xffff_ffff_ffff_ffff,
                ;
            }
            sum = sum + self.files[i].meta.size as u128;
            i = i + 1;
        }
        assert(all.take(i as int) =~= all);
        sum
    }

    pub fn transferred_bytes(&self) -> (r: u128)
        ensures
            r == moved_of(self.files.deep_view()),
    {
        let ghost all = self.files.deep_view();
        let n: usize = self.files.len();
        let mut sum: u128 = 0;
        let mut i: usize = 0;
        assert(all.take(0) =~= Seq::<TransferFileView>::empty());
        while i < n
            invariant
                n == self.files@.len(),
                all == self.files.deep_view(),
                i <= n,
                sum == moved_of(all.take(i as int)),
                sum <= i * 0xffff_ffff_ffff_ffff,
            decreases n - i,
        {
            proof {
                assert(all[i as int] == self.files@[i as int].deep_view());
                assert(all.take(i + 1).drop_last() =~= all.take(i as int));
                assert(all.take(i + 1).last() == all[i as int]);
                assert(i * 0xffff_ffff_ffff_ffff + 0xffff_ffff_ffff_ffff == (i + 1)
                    * 0xffff_ffff_ffff_ffff) by (nonlinear_arith);
                assert((i + 1) * 0xffff_ffff_ffff_ffff
                    <= 0x1_0000_0000_0000_0000 * 0xffff_ffff_ffff_ffff) by (nonlinear_arith)
                    requires
                        i < n,
                        n <= 0xffff_ffff_ffff_ffff,
                ;
            }
            sum = sum + self.files[i].transferred as u128;
            i = i + 1;
        }
        assert(all.take(i as int) =~= all);
        sum
    }

    pub fn all_done(&self) -> (r: bool)
        ensures
            r == all_done_of(self.files.deep_view()),
    {
        let ghost all = self.files.deep_view();
        let mut i: usize = 0;
        while i < self.files.len()
            invariant
                all == self.files.deep_view(),
                i <= self.files@.len(),
                forall|k: int| 0 <= k < i ==> (#[trigger] all[k]).done,
            decreases self.files@.len() - i,
        {
            assert(all[i as int] == self.files@[i as int].deep_view());
            if !self.files[i].done {
                return false;
            }
            i = i + 1;
        }
        true
    }
}

/// A file after more of it was moved.
pub open spec fn moved_file(
    f: TransferFileView,
    transferred: u64,
    done: bool,
    path: Option<Seq<char>>,
) -> TransferFileView {
    TransferFileView {
        transferred,
        done,
        saved_path: if done {
            path
        } else {
            f.saved_path
        },
        ..f
    }
}

pub open spec fn moved_files(
    s: Seq<TransferFileView>,
    file_id: Seq<char>,
    transferred: u64,
    done: bool,
    path: Option<Seq<char>>,
) -> Seq<TransferFileView> {
    match file_index(s, file_id) {
        Some(i) => s.update(i, moved_file(s[i], transferred, done, path)),
        None => s,
    }
}

/// What was measured where `delta` bytes took `dt` nanoseconds.
pub open spec fn rate_of(delta: nat, dt: u64) -> Option<(u128, u64)> {
    if delta == 0 {
        None
    } else {
        Some((delta as u128, dt))
    }
}

/// A transfer with its speed measured anew, where the last measurement was
/// long enough ago.
pub open spec fn sampled(t: TransferStateView, now_ns: u64) -> TransferStateView {
    let sum = moved_of(t.files);
    match t.last_sample {
        None => TransferStateView { last_sample: Some((now_ns, sum as u128)), ..t },
        Some((at, prev)) => if now_ns - at >= SPEED_WINDOW_NS {
            TransferStateView {
                rate: rate_of(
                    if sum > prev {
                        (sum - prev) as nat
                    } else {
                        0
                    },
                    (now_ns - at) as u64,
                ),
                last_sample: Some((now_ns, sum as u128)),
                ..t
            }
        } else {
            t
        },
    }
}

/// The state after progress of a file was reported.
pub open spec fn after_progress(
    v: UiView,
    transfer_id: Seq<char>,
    file_id: Seq<char>,
    transferred: u64,
    done: bool,
    path: Option<Seq<char>>,
    now_ns: u64,
) -> UiView {
    match transfer_index(v.transfers, transfer_id) {
        Some(i) => UiView {
            transfers: v.transfers.update(
                i,
                sampled(
                    TransferStateView {
                        files: moved_files(
                            v.transfers[i].files,
                            file_id,
                            transferred,
                            done,
                            path,
                        ),
                        ..v.transfers[i]
                    },
                    now_ns,
                ),
            ),
            ..v
        },
        None => v,
    }
}

impl TransferState {
    fn sample(&mut self, now_ns: u64)
        ensures
            final(self).deep_view() == sampled(old(self).deep_view(), now_ns),
    {
        let sum = self.transferred_bytes();
        match self.last_sample {
            None => {
                self.last_sample = Some((now_ns, sum));
            },
            Some((at, prev)) => {
                if now_ns >= at && now_ns - at >= SPEED_WINDOW_NS {
                    self.rate = if sum > prev {
                        Some((sum - prev, now_ns - at))
                    } else {
                        None
                    };
                    self.last_sample = Some((now_ns, sum));
                }
            },
        }
    }
}

impl UiState {
    pub fn file_progress(
        &mut self,
        transfer_id: &str,
        file_id: &str,
        transferred: u64,
        done: bool,
        path: Option<String>,
        now_ns: u64,
    )
        requires
            old(self).wf(),
        ensures
            final(self).wf(),
            final(self)@ == after_progress(
                old(self)@,
                transfer_id@,
                file_id@,
                transferred,
                done,
                path.deep_view(),
                now_ns,
            ),
    {
        let ghost all = self@.transfers;
        match find_transfer(&self.transfers, transfer_id) {
            None => {},
            Some(i) => {
                assert(all[i as int] == self.transfers@[i as int].deep_view());
                let mut t = self.transfers.remove(i);
                let ghost files = t.files.deep_view();
                match find_file(&t.files, file_id) {
                    Some(k) => {
                        assert(files[k as int] == t.files@[k as int].deep_view());
                        let old_file = &t.files[k];
                        let f = TransferFile {
                            meta: old_file.meta.clone(),
                            transferred,
                            done,
                            saved_path: if done {
                                path
                            } else {
                                old_file.saved_path.clone()
                            },
                            source: old_file.source.clone(),
                        };
                        t.files[k] = f;
                        assert(t.files.deep_view() =~= files.update(k as int, f.deep_view()));
                    },
                    None => {},
                }
                t.sample(now_ns);
                let ghost x = t.deep_view();
                self.transfers.insert(i, t);
                assert(self@.transfers =~= all.update(i as int, x));
            },
        }
    }
}

/// A file of a transfer that is complete.
pub open spec fn completed_file(f: TransferFileView) -> TransferFileView {
    TransferFileView {
        done: true,
        transferred: if f.transferred < f.meta.size {
            f.meta.size
        } else {
            f.transferred
        },
        ..f
    }
}

pub open spec fn completed_files(s: Seq<TransferFileView>) -> Seq<TransferFileView> {
    Seq::new(s.len(), |i: int| completed_file(s[i]))
}

/// A transfer that is over.
pub open spec fn over(t: TransferStateView, error: Option<Seq<char>>) -> TransferStateView {
    TransferStateView {
        error,
        rate: None,
        files: if error is None {
            completed_files(t.files)
        } else {
            t.files
        },
        ..t
    }
}

pub open spec fn rels_of(s: Seq<TransferFileView>) -> Seq<Seq<char>> {
    Seq::new(s.len(), |i: int| s[i].meta.rel_path)
}

/// What a transfer is called.
pub fn transfer_display_name(files: &Vec<TransferFile>) -> (r: String)
    ensures
        r@ == client::batch_name(rels_of(files.deep_view())),
{
    let ghost all = files.deep_view();
    let ghost wanted = rels_of(all);
    let mut rels: Vec<&str> = Vec::new();
    let mut i: usize = 0;
    while i < files.len()
        invariant
            all == files.deep_view(),
            wanted == rels_of(all),
            i <= files@.len(),
            rels@.len() == i,
            forall|k: int| 0 <= k < i ==> (#[trigger] rels@[k])@ == wanted[k],
        decreases files@.len() - i,
    {
        assert(all[i as int] == files@[i as int].deep_view());
        rels.push(files[i].meta.rel_path.as_str());
        i = i + 1;
    }
    assert(client::views(rels@) =~= wanted);
    batch_display_name(rels.as_slice())
}

pub open spec fn after_finished(v: UiView, transfer_id: Seq<char>, error: Option<Seq<char>>) -> UiView {
    match transfer_index(v.transfers, transfer_id) {
        Some(i) => UiView {
            transfers: v.transfers.update(i, over(v.transfers[i], error)),
            ..v
        },
        None => v,
    }
}

/// What the end of a transfer asks for: a notice of success where the window
/// is in the background.
pub open spec fn finished_effects(
    v: UiView,
    transfer_id: Seq<char>,
    error: Option<Seq<char>>,
    foreground: bool,
) -> Seq<UiEffectView> {
    match transfer_index(v.transfers, transfer_id) {
        Some(i) => if error is None && !foreground {
            seq![
                UiEffectView::Notify {
                    title: "已接收 · "@ + name_of_peer(v, v.transfers[i].peer_id),
                    body: client::batch_name(rels_of(v.transfers[i].files)),
                },
                UiEffectView::FlashTaskbar,
            ]
        } else {
            Seq::empty()
        },
        None => Seq::empty(),
    }
}

impl TransferState {
    fn complete(&mut self)
        ensures
            final(self).deep_view() == (TransferStateView {
                files: completed_files(old(self).deep_view().files),
                ..old(self).deep_view()
            }),
    {
        let ghost all = self.files.deep_view();
        let mut i: usize = 0;
        let ghost start = self.deep_view();
        while i < self.files.len()
            invariant
                i <= self.files@.len(),
                self.deep_view() == (TransferStateView {
                    files: self.files.deep_view(),
                    ..start
                }),
                self.files@.len() == all.len(),
                forall|k: int|
                    0 <= k < i ==> #[trigger] self.files.deep_view()[k] == completed_file(all[k]),
                forall|k: int|
                    i <= k < all.len() ==> #[trigger] self.files.deep_view()[k] == all[k],
            decreases self.files@.len() - i,
        {
            let ghost before = self.files.deep_view();
            let f = &self.files[i];
            assert(before[i as int] == f.deep_view());
            assert(before[i as int] == all[i as int]);
            let next = TransferFile {
                meta: f.meta.clone(),
                transferred: if f.transferred < f.meta.size {
                    f.meta.size
                } else {
                    f.transferred
                },
                done: true,
                saved_path: f.saved_path.clone(),
                source: f.source.clone(),
            };
            self.files[i] = next;
            assert(self.files.deep_view() =~= before.update(i as int, next.deep_view()));
            i = i + 1;
        }
        assert(self.files.deep_view() =~= completed_files(all));
    }
}

impl UiState {
    pub fn transfer_finished(
        &mut self,
        transfer_id: &str,
        error: Option<String>,
        foreground: bool,
    ) -> (r: Vec<UiEffect>)
        requires
            old(self).wf(),
        ensures
            final(self).wf(),
            final(self)@ == after_finished(old(self)@, transfer_id@, error.deep_view()),
            r.deep_view() == finished_effects(
                old(self)@,
                transfer_id@,
                error.deep_view(),
                foreground,
            ),
    {
        let ghost all = self@.transfers;
        let mut effects = no_effects();
        match find_transfer(&self.transfers, transfer_id) {
            None => {},
            Some(i) => {
                assert(all[i as int] == self.transfers@[i as int].deep_view());
                let success = match &error {
                    Some(_) => false,
                    None => true,
                };
                if success && !foreground {
                    let body = transfer_display_name(&self.transfers[i].files);
                    let name = self.peer_name(self.transfers[i].peer_id.as_str());
                    let title = cat("已接收 · ", name.as_str());
                    push_effect(&mut effects, UiEffect::Notify { title, body });
                    push_effect(&mut effects, UiEffect::FlashTaskbar);
                }
                let mut t = self.transfers.remove(i);
                t.error = error;
                t.rate = None;
                if success {
                    t.complete();
                }
                let ghost x = t.deep_view();
                self.transfers.insert(i, t);
                assert(self@.transfers =~= all.update(i as int, x));
            },
        }
        assert(effects.deep_view() =~= finished_effects(
            old(self)@,
            transfer_id@,
            error.deep_view(),
            foreground,
        ));
        effects
    }
}

// ---------------------------------------------------------------------------
// Events
// ---------------------------------------------------------------------------

/// The state after an event of the core. `foreground` tells whether the
/// window is in front, `now` the time in milliseconds, `now_ns` a steady
/// clock in nanoseconds.
pub open spec fn after_event(
    v: UiView,
    ev: CoreEventView,
    foreground: bool,
    now: i64,
    now_ns: u64,
) -> UiView {
    match ev {
        CoreEventView::DeviceUp(d) => after_device_up(v, d),
        CoreEventView::DeviceDown { id, name: _ } => after_device_down(v, id),
        CoreEventView::Message { msg } => after_message(v, msg, foreground),
        CoreEventView::IncomingRequest { req_id, peer, files } => after_request(
            v,
            IncomingReqView { req_id, peer, files },
            now,
        ),
        CoreEventView::RequestExpired { req_id } => UiView {
            incoming: without_req(v.incoming, req_id),
            ..v
        },
        CoreEventView::TransferStarted {
            transfer_id,
            peer_id,
            peer_name: _,
            outgoing: _,
            files,
            sources,
            save_dir: _,
        } => UiView {
            transfers: with_transfer(
                v.transfers,
                fresh_transfer(transfer_id, peer_id, files, sources),
            ),
            ..v
        },
        CoreEventView::FileProgress { transfer_id, file_id, transferred, total: _, done, path } =>
            after_progress(v, transfer_id, file_id, transferred, done, path, now_ns),
        CoreEventView::TransferFinished { transfer_id, error } => after_finished(
            v,
            transfer_id,
            error,
        ),
        CoreEventView::Error { context, message } => with_toast(
            v,
            context + "："@ + message,
            true,
            now,
        ),
        CoreEventView::Info(t) => with_toast(v, t, false, now),
    }
}

/// What an event asks of the outside world.
pub open spec fn event_effects(v: UiView, ev: CoreEventView, foreground: bool, now: i64) -> Seq<
    UiEffectView,
> {
    match ev {
        CoreEventView::DeviceUp(d) => device_up_effects(v, d),
        CoreEventView::DeviceDown { id, name: _ } => seq![
            UiEffectView::SetUnread(has_visible_unread(after_device_down(v, id))),
        ],
        CoreEventView::Message { msg } => message_effects(v, msg, foreground),
        CoreEventView::IncomingRequest { req_id, peer, files } => request_effects(
            v,
            IncomingReqView { req_id, peer, files },
            foreground,
        ),
        CoreEventView::TransferStarted {
            transfer_id,
            peer_id,
            peer_name: _,
            outgoing,
            files,
            sources,
            save_dir: _,
        } => if outgoing {
            seq![
                UiEffectView::StoreFiles {
                    peer: peer_id,
                    msgs: sent_messages(transfer_id, peer_id, files, sources, now),
                },
            ]
        } else {
            Seq::empty()
        },
        CoreEventView::TransferFinished { transfer_id, error } => finished_effects(
            v,
            transfer_id,
            error,
            foreground,
        ),
        _ => Seq::empty(),
    }
}

impl UiState {
    pub fn on_core_event(
        &mut self,
        ev: CoreEvent,
        foreground: bool,
        now: i64,
        now_ns: u64,
    ) -> (r: Vec<UiEffect>)
        requires
            old(self).wf(),
        ensures
            final(self).wf(),
            final(self)@ == after_event(old(self)@, ev.deep_view(), foreground, now, now_ns),
            r.deep_view() == event_effects(old(self)@, ev.deep_view(), foreground, now),
    {
        match ev {
            CoreEvent::DeviceUp(dev) => self.device_up(dev),
            CoreEvent::DeviceDown { id, name: _ } => self.device_down(id.as_str()),
            CoreEvent::Message { msg } => self.message_received(msg, foreground),
            CoreEvent::IncomingRequest { req_id, peer, files } => self.request_received(
                IncomingReq { req_id, peer, files },
                foreground,
                now,
            ),
            CoreEvent::RequestExpired { req_id } => {
                self.request_expired(req_id.as_str());
                no_effects()
            },
            CoreEvent::TransferStarted {
                transfer_id,
                peer_id,
                peer_name: _,
                outgoing,
                files,
                sources,
                save_dir: _,
            } => self.transfer_started(
                transfer_id.as_str(),
                peer_id.as_str(),
                outgoing,
                &files,
                &sources,
                now,
            ),
            CoreEvent::FileProgress { transfer_id, file_id, transferred, total: _, done, path } => {
                self.file_progress(
                    transfer_id.as_str(),
                    file_id.as_str(),
                    transferred,
                    done,
                    path,
                    now_ns,
                );
                no_effects()
            },
            CoreEvent::TransferFinished { transfer_id, error } => self.transfer_finished(
                transfer_id.as_str(),
                error,
                foreground,
            ),
            CoreEvent::Error { context, message } => {
                let t = cat3(context.as_str(), "：", message.as_str());
                self.set_toast(t, true, now);
                no_effects()
            },
            CoreEvent::Info(t) => {
                self.set_toast(t, false, now);
                no_effects()
            },
        }
    }
}

// ---------------------------------------------------------------------------
// Sending
// ---------------------------------------------------------------------------

/// How a text goes out in a conversation.
pub open spec fn text_command(peer: Seq<char>, t: Seq<char>) -> UiCommandView {
    if peer == WEB_PEER_ID@ {
        UiCommandView::WebText { text: t }
    } else {
        UiCommandView::SendText { peer_id: peer, text: t }
    }
}

/// How files go out in a conversation.
pub open spec fn files_command(peer: Seq<char>, chosen: Seq<Seq<char>>) -> UiCommandView {
    if peer == WEB_PEER_ID@ {
        UiCommandView::WebOffer { paths: chosen }
    } else {
        UiCommandView::SendFiles { peer_id: peer, paths: chosen }
    }
}

fn make_text_command(peer: &str, t: String) -> (r: UiCommand)
    ensures
        r.deep_view() == text_command(peer@, t@),
{
    if same_text(peer, WEB_PEER_ID) {
        UiCommand::WebText { text: t }
    } else {
        UiCommand::SendText { peer_id: peer.to_owned(), text: t }
    }
}

/// The command that sends files to a conversation.
pub fn make_files_command(peer: &str, chosen: Vec<String>) -> (r: UiCommand)
    ensures
        r.deep_view() == files_command(peer@, chosen.deep_view()),
{
    if same_text(peer, WEB_PEER_ID) {
        UiCommand::WebOffer { paths: chosen }
    } else {
        UiCommand::SendFiles { peer_id: peer.to_owned(), paths: chosen }
    }
}

impl UiState {
    /// What the user typed, as a command; nothing where no conversation is
    /// open or nothing was typed.
    pub fn send_current_input(&self, typed: &str) -> (r: Option<UiCommand>)
        ensures
            r.deep_view() == (match self@.selected {
                Some(peer) => if text::trimmed(typed@).len() > 0 {
                    Some(text_command(peer, text::trimmed(typed@)))
                } else {
                    None
                },
                None => None,
            }),
    {
        match &self.selected {
            Some(peer) => {
                let t = trim(typed);
                let v = chars_of(t.as_str());
                if v.len() == 0 {
                    return None;
                }
                Some(make_text_command(peer.as_str(), t))
            },
            None => None,
        }
    }

    /// Sends what the clipboard holds, or tells why not.
    pub fn paste_and_send(&mut self, clipboard: &str, now: i64) -> (r: Option<UiCommand>)
        requires
            old(self).wf(),
        ensures
            final(self).wf(),
            match old(self)@.selected {
                None => r is None && final(self)@ == with_toast(
                    old(self)@,
                    "请先选择设备"@,
                    true,
                    now,
                ),
                Some(peer) => if text::trimmed(clipboard@).len() == 0 {
                    r is None && final(self)@ == with_toast(
                        old(self)@,
                        "剪贴板没有文本"@,
                        true,
                        now,
                    )
                } else {
                    final(self)@ == old(self)@ && r.deep_view() == Some(
                        text_command(peer, text::trimmed(clipboard@)),
                    )
                },
            },
    {
        match &self.selected {
            None => {
                self.set_toast("请先选择设备".to_owned(), true, now);
                None
            },
            Some(peer) => {
                let t = trim(clipboard);
                let v = chars_of(t.as_str());
                if v.len() == 0 {
                    self.set_toast("剪贴板没有文本".to_owned(), true, now);
                    return None;
                }
                Some(make_text_command(peer.as_str(), t))
            },
        }
    }

    /// Sends files that were chosen or dropped, or tells why not.
    pub fn send_paths(&mut self, chosen: Vec<String>, now: i64) -> (r: Option<UiCommand>)
        requires
            old(self).wf(),
        ensures
            final(self).wf(),
            if chosen@.len() == 0 {
                r is None && final(self)@ == old(self)@
            } else {
                match old(self)@.selected {
                    None => r is None && final(self)@ == with_toast(
                        old(self)@,
                        "请先在左侧选择目标设备"@,
                        true,
                        now,
                    ),
                    Some(peer) => r.deep_view() == Some(
                        files_command(peer, chosen.deep_view()),
                    ) && final(self)@ == old(self)@,
                }
            },
    {
        if chosen.len() == 0 {
            return None;
        }
        match &self.selected {
            None => {
                self.set_toast("请先在左侧选择目标设备".to_owned(), true, now);
                None
            },
            Some(peer) => Some(make_files_command(peer.as_str(), chosen)),
        }
    }

    /// What is shown while files are dragged over the window.
    pub fn drop_hint(&self) -> (r: String)
        requires
            self.wf(),
        ensures
            r@ == (match self@.selected {
                Some(peer) => if name_of_peer(self@, peer).len() > 0 {
                    "松开即发送给 "@ + name_of_peer(self@, peer)
                } else {
                    "请先在左侧选择目标设备"@
                },
                None => "请先在左侧选择目标设备"@,
            }),
    {
        match &self.selected {
            Some(peer) => {
                let name = self.peer_name(peer.as_str());
                let v = chars_of(name.as_str());
                if v.len() > 0 {
                    cat("松开即发送给 ", name.as_str())
                } else {
                    "请先在左侧选择目标设备".to_owned()
                }
            },
            None => "请先在左侧选择目标设备".to_owned(),
        }
    }

    /// Connects to the address that was typed, or asks for one.
    pub fn connect_clicked(&mut self, host: &str, now: i64) -> (r: Option<UiCommand>)
        requires
            old(self).wf(),
        ensures
            final(self).wf(),
            if text::trimmed(host@).len() == 0 {
                r is None && final(self)@ == with_toast(
                    old(self)@,
                    "请输入 IP 地址"@,
                    true,
                    now,
                )
            } else {
                r.deep_view() == Some(UiCommandView::ConnectPeer { host: host@ }) && final(self)@
                    == (UiView { show_connect: false, ..old(self)@ })
            },
    {
        let t = trim(host);
        let v = chars_of(t.as_str());
        if v.len() == 0 {
            self.set_toast("请输入 IP 地址".to_owned(), true, now);
            return None;
        }
        self.show_connect = false;
        Some(UiCommand::ConnectPeer { host: host.to_owned() })
    }
}

// ---------------------------------------------------------------------------
// Clearing and deleting
// ---------------------------------------------------------------------------

/// Whether another click clears the conversation.
pub open spec fn is_armed(v: UiView, peer: Seq<char>, now: i64) -> bool {
    match v.confirm_clear {
        Some((p, at)) => p == peer && now - at < CONFIRM_MS,
        None => false,
    }
}

pub open spec fn after_clear_click(v: UiView, now: i64) -> UiView {
    match v.selected {
        None => v,
        Some(peer) => if is_armed(v, peer, now) {
            with_toast(
                UiView {
                    confirm_clear: None,
                    chats: v.chats.remove(peer),
                    unread: v.unread.insert(peer, 0),
                    ..v
                },
                "已清空聊天记录"@,
                false,
                now,
            )
        } else {
            with_toast(
                UiView { confirm_clear: Some((peer, now)), ..v },
                "再点一次清空（3 秒内）"@,
                false,
                now,
            )
        },
    }
}

pub open spec fn without_ids(s: Seq<ChatMessageView>, ids: Seq<i64>) -> Seq<ChatMessageView>
    decreases s.len(),
{
    if s.len() == 0 {
        Seq::empty()
    } else {
        let head = without_ids(s.drop_last(), ids);
        if ids.contains(s.last().id) {
            head
        } else {
            head.push(s.last())
        }
    }
}

fn has_id(ids: &Vec<i64>, id: i64) -> (r: bool)
    ensures
        r == ids@.contains(id),
{
    let mut i: usize = 0;
    while i < ids.len()
        invariant
            i <= ids@.len(),
            forall|k: int| 0 <= k < i ==> ids@[k] != id,
        decreases ids@.len() - i,
    {
        if ids[i] == id {
            assert(ids@[i as int] == id);
            return true;
        }
        i = i + 1;
    }
    false
}

fn drop_ids(s: &Vec<ChatMessage>, ids: &Vec<i64>) -> (r: Vec<ChatMessage>)
    ensures
        r.deep_view() == without_ids(s.deep_view(), ids@),
{
    let ghost all = s.deep_view();
    let mut out: Vec<ChatMessage> = Vec::new();
    let mut i: usize = 0;
    assert(all.take(0) =~= Seq::<ChatMessageView>::empty());
    assert(out.deep_view() =~= Seq::<ChatMessageView>::empty());
    while i < s.len()
        invariant
            all == s.deep_view(),
            i <= s@.len(),
            out.deep_view() == without_ids(all.take(i as int), ids@),
        decreases s@.len() - i,
    {
        proof {
            assert(all[i as int] == s@[i as int].deep_view());
            assert(all.take(i + 1).drop_last() =~= all.take(i as int));
            assert(all.take(i + 1).last() == all[i as int]);
        }
        if !has_id(ids, s[i].id) {
            let ghost before = out.deep_view();
            let m = s[i].clone();
            out.push(m);
            assert(out.deep_view() =~= before.push(all[i as int]));
        }
        i = i + 1;
    }
    assert(all.take(i as int) =~= all);
    out
}

/// No message that was deleted is left, and no other is gone.
pub proof fn law_deleted_messages_are_gone(s: Seq<ChatMessageView>, ids: Seq<i64>)
    ensures
        forall|m: ChatMessageView|
            #[trigger] without_ids(s, ids).contains(m) <==> s.contains(m) && !ids.contains(m.id),
    decreases s.len(),
{
    if s.len() > 0 {
        let t = s.drop_last();
        law_deleted_messages_are_gone(t, ids);
        let h = without_ids(t, ids);
        let r = without_ids(s, ids);
        assert forall|m: ChatMessageView| #[trigger] r.contains(m) <==> s.contains(m)
            && !ids.contains(m.id) by {
            if r.contains(m) {
                let i = choose|i: int| 0 <= i < r.len() && r[i] == m;
                if i < h.len() {
                    assert(h[i] == m);
                    assert(h.contains(m));
                    let j = choose|j: int| 0 <= j < t.len() && t[j] == m;
                    assert(s[j] == m);
                } else {
                    assert(s[s.len() - 1] == m);
                }
            }
            if s.contains(m) && !ids.contains(m.id) {
                let j = choose|j: int| 0 <= j < s.len() && s[j] == m;
                if j < t.len() {
                    assert(t[j] == m);
                    assert(t.contains(m));
                    assert(h.contains(m));
                    let i = choose|i: int| 0 <= i < h.len() && h[i] == m;
                    assert(r[i] == m);
                } else {
                    assert(r[r.len() - 1] == m);
                }
            }
        }
    }
}

impl UiState {
    /// Whether the button that clears a conversation asks for a second click.
    pub fn clear_armed(&self, now: i64) -> (r: bool)
        ensures
            r == is_armed(
                self@,
                (match self@.selected {
                    Some(p) => p,
                    None => Seq::empty(),
                }),
                now,
            ),
    {
        let peer = match &self.selected {
            Some(p) => p.clone(),
            None => String::new(),
        };
        match &self.confirm_clear {
            Some((p, at)) => same_text(p.as_str(), peer.as_str()) && (now as i128 - *at as i128)
                < CONFIRM_MS as i128,
            None => false,
        }
    }

    /// The button that clears the conversation was clicked: the second click
    /// in time clears it.
    pub fn clear_clicked(&mut self, now: i64) -> (r: Vec<UiEffect>)
        requires
            old(self).wf(),
        ensures
            final(self).wf(),
            final(self)@ == after_clear_click(old(self)@, now),
            r.deep_view() == (match old(self)@.selected {
                Some(peer) => if is_armed(old(self)@, peer, now) {
                    seq![UiEffectView::ClearHistory { peer }]
                } else {
                    Seq::empty()
                },
                None => Seq::empty(),
            }),
    {
        let mut effects = no_effects();
        let peer = match &self.selected {
            Some(p) => p.clone(),
            None => {
                return effects;
            },
        };
        if self.clear_armed(now) {
            self.confirm_clear = None;
            let _ = self.chats.remove(peer.as_str());
            self.unread.insert(peer.as_str(), 0);
            self.set_toast("已清空聊天记录".to_owned(), false, now);
            push_effect(&mut effects, UiEffect::ClearHistory { peer });
            assert(effects.deep_view() =~= seq![UiEffectView::ClearHistory { peer: peer@ }]);
        } else {
            self.confirm_clear = Some((peer, now));
            self.set_toast("再点一次清空（3 秒内）".to_owned(), false, now);
        }
        effects
    }

    /// Deletes messages of a conversation.
    pub fn delete_messages(&mut self, peer: &str, ids: Vec<i64>) -> (r: Vec<UiEffect>)
        requires
            old(self).wf(),
        ensures
            final(self).wf(),
            final(self)@ == (if old(self)@.chats.dom().contains(peer@) {
                UiView {
                    chats: old(self)@.chats.insert(
                        peer@,
                        without_ids(old(self)@.chats[peer@], ids@),
                    ),
                    ..old(self)@
                }
            } else {
                old(self)@
            }),
            r.deep_view() == seq![UiEffectView::DeleteMessages { ids: ids.deep_view() }],
    {
        let kept = match self.chats.get(peer) {
            Some(msgs) => Some(drop_ids(msgs, &ids)),
            None => None,
        };
        match kept {
            Some(k) => {
                self.chats.insert(peer, k);
            },
            None => {},
        }
        let mut effects = no_effects();
        push_effect(&mut effects, UiEffect::DeleteMessages { ids });
        assert(effects.deep_view() =~= seq![
            UiEffectView::DeleteMessages { ids: ids.deep_view() },
        ]);
        effects
    }
}

// ---------------------------------------------------------------------------
// Deciding on requests
// ---------------------------------------------------------------------------

pub open spec fn respond_command(req_id: Seq<char>, accept: bool, overwrite: bool) -> UiCommandView {
    UiCommandView::RespondRequest { req_id, accept, save_dir: None, overwrite }
}

pub open spec fn req_at(s: Seq<IncomingReqView>, id: Seq<char>, i: int) -> bool {
    &&& 0 <= i < s.len()
    &&& s[i].req_id == id
    &&& forall|j: int| 0 <= j < i ==> (#[trigger] s[j]).req_id != id
}

pub open spec fn find_req(s: Seq<IncomingReqView>, id: Seq<char>) -> Option<int> {
    if exists|i: int| req_at(s, id, i) {
        Some(choose|i: int| req_at(s, id, i))
    } else {
        None
    }
}

/// Where a file of a request would go.
pub open spec fn landing(dir: Seq<char>, f: FileMetaView, sys: System) -> Seq<char> {
    paths::joined_path(dir, f.rel_path, sys)
}

/// Asks of each file whether something is where it would go.
pub fn check_conflicts<F: Fn(&str) -> bool>(
    files: &Vec<FileMeta>,
    dir: &str,
    sys: System,
    occupied: F,
) -> (r: Vec<bool>)
    requires
        forall|s: &str| call_requires(occupied, (s,)),
    ensures
        r@.len() == files@.len(),
        forall|i: int|
            0 <= i < r@.len() ==> server::told(
                occupied,
                landing(dir@, files.deep_view()[i], sys),
                #[trigger] r@[i],
            ),
{
    let ghost all = files.deep_view();
    let mut out: Vec<bool> = Vec::new();
    let mut i: usize = 0;
    while i < files.len()
        invariant
            all == files.deep_view(),
            forall|s: &str| call_requires(occupied, (s,)),
            i <= files@.len(),
            out@.len() == i,
            forall|k: int|
                0 <= k < i ==> server::told(
                    occupied,
                    landing(dir@, all[k], sys),
                    #[trigger] out@[k],
                ),
        decreases files@.len() - i,
    {
        assert(all[i as int] == files@[i as int].deep_view());
        let p = join_path(dir, files[i].rel_path.as_str(), sys);
        let there = occupied(p.as_str());
        assert(server::told(occupied, landing(dir@, all[i as int], sys), there));
        out.push(there);
        i = i + 1;
    }
    out
}

/// The names of the files that something is in the way of.
pub open spec fn conflict_names(files: Seq<FileMetaView>, there: Seq<bool>) -> Seq<Seq<char>>
    decreases files.len(),
{
    if files.len() == 0 {
        Seq::empty()
    } else {
        let n = files.len() - 1;
        let head = conflict_names(files.drop_last(), there);
        if there[n] {
            head.push(files[n].name)
        } else {
            head
        }
    }
}

pub fn conflicts(files: &Vec<FileMeta>, there: &Vec<bool>) -> (r: Vec<String>)
    requires
        there@.len() == files@.len(),
    ensures
        r.deep_view() == conflict_names(files.deep_view(), there@),
{
    let ghost all = files.deep_view();
    let mut out: Vec<String> = Vec::new();
    let mut i: usize = 0;
    assert(all.take(0) =~= Seq::<FileMetaView>::empty());
    assert(out.deep_view() =~= Seq::<Seq<char>>::empty());
    while i < files.len()
        invariant
            all == files.deep_view(),
            there@.len() == files@.len(),
            i <= files@.len(),
            out.deep_view() == conflict_names(all.take(i as int), there@),
        decreases files@.len() - i,
    {
        proof {
            assert(all[i as int] == files@[i as int].deep_view());
            assert(all.take(i + 1).drop_last() =~= all.take(i as int));
            assert(all.take(i + 1)[i as int] == all[i as int]);
        }
        if there[i] {
            let ghost before = out.deep_view();
            out.push(files[i].name.clone());
            assert(out.deep_view() =~= before.push(all[i as int].name));
        }
        i = i + 1;
    }
    assert(all.take(i as int) =~= all);
    out
}

/// The state after a request was accepted.
pub open spec fn after_accept(v: UiView, req_id: Seq<char>) -> UiView {
    UiView { incoming: without_req(v.incoming, req_id), overwrite_req: None, ..v }
}

impl UiState {
    fn req_index(&self, id: &str) -> (r: Option<usize>)
        ensures
            match r {
                Some(i) => find_req(self@.incoming, id@) == Some(i as int) && i
                    < self.incoming@.len(),
                None => find_req(self@.incoming, id@) is None,
            },
    {
        let ghost all = self@.incoming;
        let mut i: usize = 0;
        while i < self.incoming.len()
            invariant
                all == self@.incoming,
                i <= self.incoming@.len(),
                forall|k: int| 0 <= k < i ==> (#[trigger] all[k]).req_id != id@,
            decreases self.incoming@.len() - i,
        {
            assert(all[i as int] == self.incoming@[i as int].deep_view());
            if same_text(self.incoming[i].req_id.as_str(), id) {
                proof {
                    assert(req_at(all, id@, i as int));
                    let p = choose|p: int| req_at(all, id@, p);
                    assert(req_at(all, id@, p));
                    assert(p == i) by {
                        if p < i {
                            assert(all[p].req_id != id@);
                        } else if i < p {
                            assert(all[i as int].req_id != id@);
                        }
                    }
                }
                return Some(i);
            }
            i = i + 1;
        }
        None
    }

    /// The request that waits under this id.
    pub fn find_request(&self, id: &str) -> (r: Option<IncomingReq>)
        ensures
            r.deep_view() == (match find_req(self@.incoming, id@) {
                Some(i) => Some(self@.incoming[i]),
                None => None,
            }),
    {
        match self.req_index(id) {
            Some(i) => {
                assert(self@.incoming[i as int] == self.incoming@[i as int].deep_view());
                Some(self.incoming[i].clone())
            },
            None => None,
        }
    }

    /// Accepts a request; files of the same name are replaced or not.
    pub fn accept_request(&mut self, req_id: &str, overwrite: bool) -> (r: Vec<UiEffect>)
        requires
            old(self).wf(),
        ensures
            final(self).wf(),
            final(self)@ == after_accept(old(self)@, req_id@),
            r.deep_view() == seq![UiEffectView::Send(respond_command(req_id@, true, overwrite))],
    {
        let mut effects = no_effects();
        push_effect(
            &mut effects,
            UiEffect::Send(
                UiCommand::RespondRequest {
                    req_id: req_id.to_owned(),
                    accept: true,
                    save_dir: None,
                    overwrite,
                },
            ),
        );
        self.incoming = drop_req(&self.incoming, req_id);
        self.overwrite_req = None;
        assert(effects.deep_view() =~= seq![
            UiEffectView::Send(respond_command(req_id@, true, overwrite)),
        ]);
        effects
    }

    /// Rejects a request.
    pub fn reject_request(&mut self, req_id: &str) -> (r: Vec<UiEffect>)
        requires
            old(self).wf(),
        ensures
            final(self).wf(),
            final(self)@ == (UiView {
                incoming: without_req(old(self)@.incoming, req_id@),
                ..old(self)@
            }),
            r.deep_view() == (if find_req(old(self)@.incoming, req_id@) is Some {
                seq![UiEffectView::Send(respond_command(req_id@, false, false))]
            } else {
                Seq::empty()
            }),
    {
        let mut effects = no_effects();
        match self.req_index(req_id) {
            Some(_) => {
                push_effect(
                    &mut effects,
                    UiEffect::Send(
                        UiCommand::RespondRequest {
                            req_id: req_id.to_owned(),
                            accept: false,
                            save_dir: None,
                            overwrite: false,
                        },
                    ),
                );
                assert(effects.deep_view() =~= seq![
                    UiEffectView::Send(respond_command(req_id@, false, false)),
                ]);
            },
            None => {},
        }
        self.incoming = drop_req(&self.incoming, req_id);
        effects
    }

    /// The user wants a request whose files find something in their way or
    /// not, as `there` tells: without conflict it is accepted, else the user is
    /// asked again.
    pub fn decide_overwrite(&mut self, req_id: &str, there: &Vec<bool>) -> (r: Vec<UiEffect>)
        requires
            old(self).wf(),
            find_req(old(self)@.incoming, req_id@) matches Some(i) ==> there@.len() == old(
                self,
            )@.incoming[i].files.len(),
        ensures
            final(self).wf(),
            match find_req(old(self)@.incoming, req_id@) {
                None => final(self)@ == old(self)@ && r.deep_view() == Seq::<UiEffectView>::empty(),
                Some(i) => if there@.contains(true) {
                    &&& final(self)@ == (UiView {
                        overwrite_req: Some(old(self)@.incoming[i]),
                        ..old(self)@
                    })
                    &&& r.deep_view() == Seq::<UiEffectView>::empty()
                } else {
                    &&& final(self)@ == after_accept(old(self)@, req_id@)
                    &&& r.deep_view() == seq![
                        UiEffectView::Send(respond_command(req_id@, true, false)),
                    ]
                },
            },
    {
        match self.req_index(req_id) {
            None => no_effects(),
            Some(i) => {
                let mut k: usize = 0;
                let mut conflict = false;
                while k < there.len()
                    invariant
                        k <= there@.len(),
                        conflict == there@.take(k as int).contains(true),
                    decreases there@.len() - k,
                {
                    let ghost before = there@.take(k as int);
                    let ghost after = there@.take(k + 1);
                    proof {
                        assert(after =~= before.push(there@[k as int]));
                        if before.contains(true) {
                            let j = choose|j: int| 0 <= j < before.len() && before[j];
                            assert(after[j]);
                        }
                        if there@[k as int] {
                            assert(after[k as int]);
                        } else if after.contains(true) {
                            let j = choose|j: int| 0 <= j < after.len() && after[j];
                            assert(before[j]);
                        }
                    }
                    if there[k] {
                        conflict = true;
                    }
                    k = k + 1;
                }
                assert(there@.take(k as int) =~= there@);
                if conflict {
                    assert(self@.incoming[i as int] == self.incoming@[i as int].deep_view());
                    self.overwrite_req = Some(self.incoming[i].clone());
                    no_effects()
                } else {
                    self.accept_request(req_id, false)
                }
            },
        }
    }

    /// The user wants a request. `occupied` tells whether something is at a
    /// path; what it says decides as in [`UiState::decide_overwrite`].
    pub fn ask_overwrite<F: Fn(&str) -> bool>(&mut self, req_id: &str, occupied: F) -> (r: Vec<
        UiEffect,
    >)
        requires
            old(self).wf(),
            forall|s: &str| call_requires(occupied, (s,)),
        ensures
            final(self).wf(),
            match find_req(old(self)@.incoming, req_id@) {
                None => final(self)@ == old(self)@ && r.deep_view() == Seq::<UiEffectView>::empty(),
                Some(i) => exists|there: Seq<bool>|
                    #![trigger there.contains(true)]
                    there.len() == old(self)@.incoming[i].files.len() && (forall|k: int|
                        0 <= k < there.len() ==> server::told(
                            occupied,
                            landing(
                                old(self)@.config.download_dir,
                                old(self)@.incoming[i].files[k],
                                old(self)@.system,
                            ),
                            #[trigger] there[k],
                        )) && if there.contains(true) {
                        &&& final(self)@ == (UiView {
                            overwrite_req: Some(old(self)@.incoming[i]),
                            ..old(self)@
                        })
                        &&& r.deep_view() == Seq::<UiEffectView>::empty()
                    } else {
                        &&& final(self)@ == after_accept(old(self)@, req_id@)
                        &&& r.deep_view() == seq![
                            UiEffectView::Send(respond_command(req_id@, true, false)),
                        ]
                    },
            },
    {
        match self.req_index(req_id) {
            None => no_effects(),
            Some(i) => {
                assert(self@.incoming[i as int] == self.incoming@[i as int].deep_view());
                let there = check_conflicts(
                    &self.incoming[i].files,
                    self.config.download_dir.as_str(),
                    self.system,
                    occupied,
                );
                assert(self.incoming@[i as int].files.deep_view().len()
                    == self.incoming@[i as int].files@.len());
                let r = self.decide_overwrite(req_id, &there);
                assert(there@.contains(true) == there@.contains(true));
                r
            },
        }
    }
}

// ---------------------------------------------------------------------------
// Closing the window
// ---------------------------------------------------------------------------

/// The state after a choice in the dialog that closing the window brings up.
pub open spec fn after_close_choice(v: UiView, action: Seq<char>) -> UiView {
    UiView {
        config: if v.close_remember {
            ConfigView { close_action: action, ..v.config }
        } else {
            v.config
        },
        show_close_dialog: false,
        ..v
    }
}

pub open spec fn close_choice_effects(v: UiView, action: Seq<char>) -> Seq<UiEffectView> {
    let saved = if v.close_remember {
        seq![UiEffectView::SaveConfig]
    } else {
        Seq::empty()
    };
    if action == "tray"@ {
        saved.push(UiEffectView::HideWindow)
    } else {
        saved
    }
}

impl UiState {
    pub fn apply_close_choice(&mut self, action: &str) -> (r: Vec<UiEffect>)
        requires
            old(self).wf(),
        ensures
            final(self).wf(),
            final(self)@ == after_close_choice(old(self)@, action@),
            r.deep_view() == close_choice_effects(old(self)@, action@),
    {
        let mut effects = no_effects();
        if self.close_remember {
            self.config.close_action = action.to_owned();
            push_effect(&mut effects, UiEffect::SaveConfig);
        }
        self.show_close_dialog = false;
        if same_text(action, "tray") {
            push_effect(&mut effects, UiEffect::HideWindow);
        }
        assert(effects.deep_view() =~= close_choice_effects(old(self)@, action@));
        effects
    }

    /// The user wants the window closed: whether it is, and what happens
    /// instead.
    pub fn handle_close_request(&mut self) -> (r: (bool, Vec<UiEffect>))
        requires
            old(self).wf(),
        ensures
            final(self).wf(),
            ({
                let v = old(self)@;
                let action = v.config.close_action;
                if v.force_close {
                    r.0 && final(self)@ == v && r.1.deep_view() == Seq::<UiEffectView>::empty()
                } else if action == "tray"@ {
                    !r.0 && final(self)@ == v && r.1.deep_view() == seq![UiEffectView::HideWindow]
                } else if action == "close"@ {
                    r.0 && final(self)@ == v && r.1.deep_view() == Seq::<UiEffectView>::empty()
                } else {
                    !r.0 && final(self)@ == (UiView { show_close_dialog: true, ..v })
                        && r.1.deep_view() == Seq::<UiEffectView>::empty()
                }
            }),
    {
        let mut effects = no_effects();
        if self.force_close {
            return (true, effects);
        }
        if same_text(self.config.close_action.as_str(), "tray") {
            push_effect(&mut effects, UiEffect::HideWindow);
            assert(effects.deep_view() =~= seq![UiEffectView::HideWindow]);
            (false, effects)
        } else if same_text(self.config.close_action.as_str(), "close") {
            (true, effects)
        } else {
            self.show_close_dialog = true;
            (false, effects)
        }
    }
}

// ---------------------------------------------------------------------------
// Settings
// ---------------------------------------------------------------------------

/// The port that a text is; a plus sign in front does not count.
pub open spec fn port_of(s: Seq<char>) -> Option<nat> {
    let t = text::trimmed(s);
    if t.len() > 1 && t[0] == '+' {
        engine::number_upto(t.skip(1), 65535)
    } else {
        engine::number_upto(t, 65535)
    }
}

/// The settings with what the user typed; what is empty or no port changes
/// nothing.
pub open spec fn edited(c: ConfigView, name: Seq<char>, dir: Seq<char>, port: Seq<char>) -> ConfigView {
    ConfigView {
        device_name: if text::trimmed(name).len() > 0 {
            text::trimmed(name)
        } else {
            c.device_name
        },
        download_dir: if text::trimmed(dir).len() > 0 {
            text::trimmed(dir)
        } else {
            c.download_dir
        },
        http_port: match port_of(port) {
            Some(p) => p as u16,
            None => c.http_port,
        },
        ..c
    }
}

pub fn parse_port(s: &str) -> (r: Option<u16>)
    ensures
        match r {
            Some(p) => port_of(s@) == Some(p as nat),
            None => port_of(s@) is None,
        },
{
    let t = trim(s);
    let v = chars_of(t.as_str());
    let n: usize = v.len();
    let digits = if n > 1 && v[0] == '+' {
        assert(v@.subrange(1, n as int) =~= t@.skip(1));
        string_range(&v, 1, n)
    } else {
        t
    };
    match parse_number(digits.as_str(), 65535) {
        Some(p) => Some(p as u16),
        None => None,
    }
}

fn typed(s: &str, else_text: &String) -> (r: String)
    ensures
        r@ == (if text::trimmed(s@).len() > 0 {
            text::trimmed(s@)
        } else {
            else_text@
        }),
{
    let t = trim(s);
    let v = chars_of(t.as_str());
    if v.len() > 0 {
        t
    } else {
        else_text.clone()
    }
}

impl UiState {
    /// The settings to save.
    pub fn edit_settings(&self, name: &str, dir: &str, port: &str) -> (r: Config)
        ensures
            r.deep_view() == edited(self@.config, name@, dir@, port@),
    {
        let http_port: u16 = match parse_port(port) {
            Some(p) => p,
            None => self.config.http_port,
        };
        Config {
            device_id: self.config.device_id.clone(),
            device_name: typed(name, &self.config.device_name),
            http_port,
            download_dir: typed(dir, &self.config.download_dir),
            auto_receive: self.config.auto_receive,
            close_action: self.config.close_action.clone(),
        }
    }

    /// The settings were saved: they hold from now on, but for the port, which
    /// holds after a restart. Other devices learn a new name.
    pub fn settings_saved(&mut self, config: Config, now: i64) -> (r: Vec<UiEffect>)
        requires
            old(self).wf(),
        ensures
            final(self).wf(),
            final(self)@ == with_toast(
                UiView { config: config.deep_view(), show_settings: false, ..old(self)@ },
                if config.http_port != old(self)@.config.http_port {
                    "已保存；端口修改将在重启后生效"@
                } else {
                    "已保存"@
                },
                false,
                now,
            ),
            r.deep_view() == (if config.device_name@ != old(self)@.config.device_name {
                seq![UiEffectView::Send(UiCommandView::Rename { name: config.device_name@ })]
            } else {
                Seq::empty()
            }),
    {
        let mut effects = no_effects();
        if !same_text(config.device_name.as_str(), self.config.device_name.as_str()) {
            push_effect(
                &mut effects,
                UiEffect::Send(UiCommand::Rename { name: config.device_name.clone() }),
            );
            assert(effects.deep_view() =~= seq![
                UiEffectView::Send(UiCommandView::Rename { name: config.device_name@ }),
            ]);
        }
        let moved = config.http_port != self.config.http_port;
        self.config = config;
        self.show_settings = false;
        if moved {
            self.set_toast("已保存；端口修改将在重启后生效".to_owned(), false, now);
        } else {
            self.set_toast("已保存".to_owned(), false, now);
        }
        effects
    }

    /// The settings could not be saved.
    pub fn save_failed(&mut self, cause: &str, now: i64)
        requires
            old(self).wf(),
        ensures
            final(self).wf(),
            final(self)@ == with_toast(old(self)@, "保存失败: "@ + cause@, true, now),
    {
        self.set_toast(cat("保存失败: ", cause), true, now);
    }

    /// Files are taken without asking, or not any more.
    pub fn set_auto_receive(&mut self, on: bool) -> (r: Vec<UiEffect>)
        requires
            old(self).wf(),
        ensures
            final(self).wf(),
            final(self)@ == (UiView {
                config: ConfigView { auto_receive: on, ..old(self)@.config },
                ..old(self)@
            }),
            r.deep_view() == seq![UiEffectView::SaveConfig],
    {
        self.config.auto_receive = on;
        let mut effects = no_effects();
        push_effect(&mut effects, UiEffect::SaveConfig);
        assert(effects.deep_view() =~= seq![UiEffectView::SaveConfig]);
        effects
    }

    /// What closing the window does from now on.
    pub fn set_close_action(&mut self, action: &str) -> (r: Vec<UiEffect>)
        requires
            old(self).wf(),
        ensures
            final(self).wf(),
            final(self)@ == (UiView {
                config: ConfigView { close_action: action@, ..old(self)@.config },
                ..old(self)@
            }),
            r.deep_view() == seq![UiEffectView::SaveConfig],
    {
        self.config.close_action = action.to_owned();
        let mut effects = no_effects();
        push_effect(&mut effects, UiEffect::SaveConfig);
        assert(effects.deep_view() =~= seq![UiEffectView::SaveConfig]);
        effects
    }
}

// ---------------------------------------------------------------------------
// Laws of the user interface
// ---------------------------------------------------------------------------

/// Opening a conversation leaves nothing unread in it, and changes nothing in
/// the others.
pub proof fn law_opening_reads(v: UiView, peer: Seq<char>, other: Seq<char>)
    requires
        v.selected != Some(peer),
        other != peer,
    ensures
        unread_of(after_select(v, peer), peer) == 0,
        unread_of(after_select(v, peer), other) == unread_of(v, other),
        after_select(v, peer).chats == v.chats,
{
}

/// A message that the user sees arrive is not counted as unread; any other is
/// counted once.
pub proof fn law_unread_counts_unseen(v: UiView, msg: ChatMessageView, foreground: bool)
    ensures
        unread_of(after_message(v, msg, foreground), msg.peer_id) == (if v.selected == Some(
            msg.peer_id,
        ) && foreground {
            unread_of(v, msg.peer_id)
        } else {
            one_more(unread_of(v, msg.peer_id))
        }),
        chat_of(after_message(v, msg, foreground), msg.peer_id) == chat_of(v, msg.peer_id).push(
            msg,
        ),
{
}

/// Unread messages of devices that are offline do not mark the tray: they
/// could not be opened.
pub proof fn law_offline_unread_is_not_marked(v: UiView)
    requires
        forall|id: Seq<char>|
            #[trigger] v.unread.dom().contains(id) && v.unread[id] > 0 ==> id != WEB_PEER_ID@
                && !is_online(v.devices, id),
    ensures
        !has_visible_unread(v),
{
}

/// Requests wait side by side: a new one displaces none, and the end of one
/// takes no other away.
pub proof fn law_requests_wait_side_by_side(
    v: UiView,
    req: IncomingReqView,
    now: i64,
    expired: Seq<char>,
)
    requires
        !v.config.auto_receive,
    ensures
        after_request(v, req, now).incoming == v.incoming.push(req),
        forall|q: IncomingReqView|
            #[trigger] without_req(v.incoming, expired).contains(q) <==> v.incoming.contains(q)
                && q.req_id != expired,
{
    lemma_without_req(v.incoming, expired);
}

proof fn lemma_without_req(s: Seq<IncomingReqView>, id: Seq<char>)
    ensures
        forall|q: IncomingReqView|
            #[trigger] without_req(s, id).contains(q) <==> s.contains(q) && q.req_id != id,
    decreases s.len(),
{
    if s.len() > 0 {
        let t = s.drop_last();
        lemma_without_req(t, id);
        let h = without_req(t, id);
        let r = without_req(s, id);
        assert forall|q: IncomingReqView| #[trigger] r.contains(q) <==> s.contains(q) && q.req_id
            != id by {
            if r.contains(q) {
                let i = choose|i: int| 0 <= i < r.len() && r[i] == q;
                if i < h.len() {
                    assert(h[i] == q);
                    assert(h.contains(q));
                    let j = choose|j: int| 0 <= j < t.len() && t[j] == q;
                    assert(s[j] == q);
                } else {
                    assert(s[s.len() - 1] == q);
                }
            }
            if s.contains(q) && q.req_id != id {
                let j = choose|j: int| 0 <= j < s.len() && s[j] == q;
                if j < t.len() {
                    assert(t[j] == q);
                    assert(t.contains(q));
                    assert(h.contains(q));
                    let i = choose|i: int| 0 <= i < h.len() && h[i] == q;
                    assert(r[i] == q);
                } else {
                    assert(r[r.len() - 1] == q);
                }
            }
        }
    }
}

/// A transfer shows every file that was announced, whether or not sources are
/// known, and never are more transfers remembered than the limit.
pub proof fn law_every_announced_file_is_shown(
    s: Seq<TransferStateView>,
    id: Seq<char>,
    peer_id: Seq<char>,
    files: Seq<FileMetaView>,
    sources: Seq<Seq<char>>,
)
    ensures
        ({
            let after = with_transfer(s, fresh_transfer(id, peer_id, files, sources));
            &&& after.len() <= TRANSFER_LIMIT
            &&& after[0].files.len() == files.len()
            &&& forall|i: int|
                0 <= i < files.len() ==> (#[trigger] after[0].files[i]).meta == files[i]
        }),
{
}

/// A transfer that ended well shows every file as complete.
pub proof fn law_success_completes_every_file(t: TransferStateView)
    ensures
        all_done_of(over(t, None).files),
        moved_of(over(t, None).files) >= total_of(over(t, None).files),
{
    lemma_completed_moved(t.files);
}

proof fn lemma_completed_moved(s: Seq<TransferFileView>)
    ensures
        moved_of(completed_files(s)) >= total_of(completed_files(s)),
    decreases s.len(),
{
    let c = completed_files(s);
    if s.len() > 0 {
        lemma_completed_moved(s.drop_last());
        assert(c.drop_last() =~= completed_files(s.drop_last()));
    }
}

/// A message is added at the end of the conversation that it belongs to; every
/// other conversation, with what is unread in it, stays as it was, and so does
/// all else that is shown.
pub proof fn law_message_joins_its_conversation(
    v: UiView,
    msg: ChatMessageView,
    foreground: bool,
    now: i64,
    now_ns: u64,
    other: Seq<char>,
)
    requires
        other != msg.peer_id,
    ensures
        ({
            let after = after_event(v, CoreEventView::Message { msg }, foreground, now, now_ns);
            &&& chat_of(after, msg.peer_id).len() == chat_of(v, msg.peer_id).len() + 1
            &&& chat_of(after, msg.peer_id).last() == msg
            &&& chat_of(after, msg.peer_id).drop_last() == chat_of(v, msg.peer_id)
            &&& chat_of(after, other) == chat_of(v, other)
            &&& unread_of(after, other) == unread_of(v, other)
            &&& after.selected == v.selected
            &&& after.devices == v.devices
            &&& after.transfers == v.transfers
            &&& after.incoming == v.incoming
            &&& after.config == v.config
        }),
{
    let after = after_event(v, CoreEventView::Message { msg }, foreground, now, now_ns);
    assert(chat_of(after, msg.peer_id).drop_last() =~= chat_of(v, msg.peer_id));
}

/// With the window in front nobody is disturbed; in the background the user
/// is told of a text by the name of who sent it, and the task bar flashes.
pub proof fn law_message_disturbs_only_in_the_background(
    v: UiView,
    msg: ChatMessageView,
    now: i64,
)
    ensures
        ({
            let ev = CoreEventView::Message { msg };
            let front = event_effects(v, ev, true, now);
            let back = event_effects(v, ev, false, now);
            &&& v.selected == Some(msg.peer_id) ==> front.len() == 0
            &&& v.selected != Some(msg.peer_id) ==> front.len() == 1 && front[0] is SetUnread
            &&& back.last() is FlashTaskbar
            &&& back[0] is SetUnread
            &&& msg.kind matches MessageKindView::Text(t) ==> back.len() == 3 && back[1] == (
            UiEffectView::Notify {
                title: name_of_peer(v, msg.peer_id),
                body: text::first_chars(t, 40),
            })
            &&& msg.kind is File ==> back.len() == 2
        }),
{
}

/// The mark in the tray shows exactly whether something unread can be opened.
pub proof fn law_mark_shows_what_can_be_opened(v: UiView, id: Seq<char>)
    requires
        v.unread.dom().contains(id),
        v.unread[id] > 0,
        id == "__web__"@ || is_online(v.devices, id),
    ensures
        has_visible_unread(v),
{
}

pub proof fn lemma_device_found(s: Seq<DeviceView>, id: Seq<char>)
    ensures
        device_index(s, id) is Some <==> exists|i: int|
            0 <= i < s.len() && (#[trigger] s[i]).info.id == id,
        device_index(s, id) matches Some(i) ==> 0 <= i < s.len() && s[i].info.id == id,
    decreases s.len(),
{
    if exists|i: int| 0 <= i < s.len() && (#[trigger] s[i]).info.id == id {
        let n = lemma_first_device(s, id);
        lemma_device_at(s, id, n);
    } else {
        assert forall|i: int| !device_at(s, id, i) by {}
    }
}

proof fn lemma_first_device(s: Seq<DeviceView>, id: Seq<char>) -> (n: int)
    requires
        exists|i: int| 0 <= i < s.len() && (#[trigger] s[i]).info.id == id,
    ensures
        device_at(s, id, n),
    decreases s.len(),
{
    let t = s.drop_last();
    if exists|i: int| 0 <= i < t.len() && (#[trigger] t[i]).info.id == id {
        let n = lemma_first_device(t, id);
        assert forall|j: int| 0 <= j < n implies (#[trigger] s[j]).info.id != id by {
            assert(t[j] == s[j]);
        }
        assert(t[n] == s[n]);
        n
    } else {
        assert forall|j: int| 0 <= j < s.len() - 1 implies (#[trigger] s[j]).info.id != id by {
            assert(t[j] == s[j]);
        }
        s.len() - 1
    }
}

/// A device that came up is in the list as it was announced, under its name
/// from then on; every other device stays. Its conversation is opened where
/// none was open, and only then.
pub proof fn law_device_up_is_listed(
    v: UiView,
    d: DeviceView,
    foreground: bool,
    now: i64,
    now_ns: u64,
)
    ensures
        ({
            let after = after_event(v, CoreEventView::DeviceUp(d), foreground, now, now_ns);
            &&& after.devices.contains(d)
            &&& forall|i: int|
                0 <= i < v.devices.len() && (#[trigger] v.devices[i]).info.id != d.info.id
                    ==> after.devices.contains(v.devices[i])
            &&& after.peer_names.dom().contains(d.info.id)
            &&& after.peer_names[d.info.id] == d.info.name
            &&& v.selected is None ==> after.selected == Some(d.info.id)
            &&& v.selected is Some ==> after.selected == v.selected
            &&& after.chats == v.chats
            &&& after.transfers == v.transfers
            &&& after.incoming == v.incoming
            &&& discovery::is_by_last_seen(after.devices)
            &&& event_effects(v, CoreEventView::DeviceUp(d), foreground, now).contains(
                UiEffectView::UpsertPeer { id: d.info.id, name: d.info.name },
            )
        }),
{
    let s = v.devices;
    let w = with_device(s, d);
    lemma_device_found(s, d.info.id);
    discovery::law_list_is_sorted(w);
    let sorted = discovery::by_last_seen(w);
    w.to_multiset_ensures();
    sorted.to_multiset_ensures();
    assert(w.contains(d)) by {
        match device_index(s, d.info.id) {
            Some(i) => {
                assert(w[i] == d);
            },
            None => {
                assert(w[w.len() - 1] == d);
            },
        }
    }
    assert(w.to_multiset().count(d) > 0);
    assert(sorted.contains(d));
    assert forall|i: int| 0 <= i < s.len() && (#[trigger] s[i]).info.id
        != d.info.id implies sorted.contains(s[i]) by {
        assert(w[i] == s[i]);
        assert(w.contains(s[i]));
        assert(w.to_multiset().count(s[i]) > 0);
    }
    let effects = event_effects(v, CoreEventView::DeviceUp(d), foreground, now);
    assert(effects[1] == (UiEffectView::UpsertPeer { id: d.info.id, name: d.info.name }));
}

/// A device that went is offline, under the name that it had; every other
/// device stays as it was.
pub proof fn law_device_down_is_offline(
    v: UiView,
    id: Seq<char>,
    name: Seq<char>,
    foreground: bool,
    now: i64,
    now_ns: u64,
)
    requires
        discovery::ids_unique(v.devices),
    ensures
        ({
            let after = after_event(
                v,
                CoreEventView::DeviceDown { id, name },
                foreground,
                now,
                now_ns,
            );
            &&& !is_online(after.devices, id)
            &&& after.devices.len() == v.devices.len()
            &&& forall|i: int|
                0 <= i < v.devices.len() ==> (#[trigger] after.devices[i]).info
                    == v.devices[i].info && after.devices[i].addr == v.devices[i].addr
            &&& forall|i: int|
                0 <= i < v.devices.len() && v.devices[i].info.id != id ==> #[trigger] after.devices[i]
                    == v.devices[i]
            &&& after.chats == v.chats
            &&& after.unread == v.unread
            &&& after.selected == v.selected
        }),
{
    let s = v.devices;
    let r = without_online(s, id);
    lemma_device_found(s, id);
    match device_index(s, id) {
        Some(p) => {
            assert forall|i: int| 0 <= i < r.len() && (#[trigger] r[i]).info.id
                == id implies !r[i].online by {
                if i < p {
                    assert(s[i].info.id != s[p].info.id);
                } else if p < i {
                    assert(s[p].info.id != s[i].info.id);
                }
            }
        },
        None => {
            assert forall|i: int| 0 <= i < r.len() implies (#[trigger] r[i]).info.id != id by {}
        },
    }
}

/// A device goes by the name that it announces, one that is not listed by the
/// name that it had, and one that never had any by the start of its id.
pub proof fn law_names_are_kept(v: UiView, id: Seq<char>)
    ensures
        (forall|i: int| 0 <= i < v.devices.len() ==> (#[trigger] v.devices[i]).info.id != id)
            && v.peer_names.dom().contains(id) ==> name_of_peer(v, id) == v.peer_names[id],
        (forall|i: int| 0 <= i < v.devices.len() ==> (#[trigger] v.devices[i]).info.id != id)
            && !v.peer_names.dom().contains(id) && id.len() >= 8 ==> name_of_peer(v, id)
            == id.take(8),
        discovery::ids_unique(v.devices) ==> forall|i: int|
            0 <= i < v.devices.len() && (#[trigger] v.devices[i]).info.id == id ==> name_of_peer(
                v,
                id,
            ) == v.devices[i].info.name,
{
    lemma_device_found(v.devices, id);
    if discovery::ids_unique(v.devices) {
        assert forall|i: int| 0 <= i < v.devices.len() && (#[trigger] v.devices[i]).info.id
            == id implies name_of_peer(v, id) == v.devices[i].info.name by {
            let p = device_index(v.devices, id)->Some_0;
            if p < i {
                assert(v.devices[p].info.id != v.devices[i].info.id);
            } else if i < p {
                assert(v.devices[i].info.id != v.devices[p].info.id);
            }
        }
    }
}

/// A request is put to the user in the conversation with its sender and
/// nothing is answered; where the user wants all files, it is accepted at once
/// without replacing anything.
pub proof fn law_request_is_put_or_taken(
    v: UiView,
    req_id: Seq<char>,
    peer: DeviceView,
    files: Seq<FileMetaView>,
    foreground: bool,
    now: i64,
    now_ns: u64,
)
    ensures
        ({
            let ev = CoreEventView::IncomingRequest { req_id, peer, files };
            let after = after_event(v, ev, foreground, now, now_ns);
            let effects = event_effects(v, ev, foreground, now);
            &&& v.config.auto_receive ==> {
                &&& after.incoming == v.incoming
                &&& effects.last() == UiEffectView::Send(
                    UiCommandView::RespondRequest {
                        req_id,
                        accept: true,
                        save_dir: None,
                        overwrite: false,
                    },
                )
                &&& after.selected == v.selected
            }
            &&& !v.config.auto_receive ==> {
                &&& after.incoming.len() == v.incoming.len() + 1
                &&& after.incoming.last() == (IncomingReqView { req_id, peer, files })
                &&& after.selected == Some(peer.info.id)
                &&& forall|i: int| 0 <= i < effects.len() ==> !(#[trigger] effects[i] is Send)
            }
            &&& !foreground ==> effects[0] is Notify && effects[1] is FlashTaskbar
        }),
{
}

/// A request that ran out waits no more; every other waits on, in its order.
pub proof fn law_expired_request_waits_no_more(
    a: Seq<IncomingReqView>,
    b: Seq<IncomingReqView>,
    id: Seq<char>,
    r: IncomingReqView,
)
    ensures
        without_req(a + b, id) == without_req(a, id) + without_req(b, id),
        r.req_id == id ==> without_req(seq![r], id).len() == 0,
        r.req_id != id ==> without_req(seq![r], id) == seq![r],
    decreases b.len(),
{
    let all = a + b;
    if b.len() == 0 {
        assert(all =~= a);
        assert(without_req(a, id) + without_req(b, id) =~= without_req(a, id));
    } else {
        law_expired_request_waits_no_more(a, b.drop_last(), id, r);
        assert(all.drop_last() =~= a + b.drop_last());
        assert(all.last() == b.last());
        assert(without_req(all, id) =~= without_req(a, id) + without_req(b, id));
    }
    assert(seq![r].drop_last() =~= Seq::<IncomingReqView>::empty());
    assert(seq![r].last() == r);
    assert(without_req(Seq::<IncomingReqView>::empty(), id) =~= Seq::<IncomingReqView>::empty());
    if r.req_id != id {
        assert(without_req(seq![r], id) =~= seq![r]);
    }
}

/// A transfer that begins is shown first, with its id, its peer and all its
/// files, of which nothing is moved yet; the transfers that were shown move
/// back one place each.
pub proof fn law_transfer_is_shown_first(
    v: UiView,
    id: Seq<char>,
    peer_id: Seq<char>,
    peer_name: Seq<char>,
    outgoing: bool,
    files: Seq<FileMetaView>,
    sources: Seq<Seq<char>>,
    save_dir: Option<Seq<char>>,
    foreground: bool,
    now: i64,
    now_ns: u64,
)
    ensures
        ({
            let ev = CoreEventView::TransferStarted {
                transfer_id: id,
                peer_id,
                peer_name,
                outgoing,
                files,
                sources,
                save_dir,
            };
            let after = after_event(v, ev, foreground, now, now_ns);
            let effects = event_effects(v, ev, foreground, now);
            &&& after.transfers[0].id == id
            &&& after.transfers[0].peer_id == peer_id
            &&& after.transfers[0].error is None
            &&& after.transfers[0].files.len() == files.len()
            &&& forall|i: int|
                0 <= i < files.len() ==> {
                    let f = #[trigger] after.transfers[0].files[i];
                    &&& f.meta == files[i]
                    &&& f.transferred == 0
                    &&& !f.done
                    &&& f.saved_path is None
                    &&& i < sources.len() && sources[i].len() > 0 ==> f.source == Some(sources[i])
                    &&& i >= sources.len() ==> f.source is None
                }
            &&& v.transfers.len() < 20 ==> after.transfers.len() == v.transfers.len() + 1
            &&& forall|i: int|
                1 <= i < after.transfers.len() ==> #[trigger] after.transfers[i]
                    == v.transfers[i - 1]
            &&& !outgoing ==> effects.len() == 0
            &&& outgoing ==> effects.len() == 1 && effects[0] is StoreFiles
                && effects[0]->StoreFiles_peer == peer_id && effects[0]->msgs.len() == files.len()
        }),
{
}

/// Each file that goes out has a message in the conversation with the
/// receiver, sent by this device, which names its transfer, its id and where
/// it lies.
pub proof fn law_sent_file_has_its_message(
    id: Seq<char>,
    peer_id: Seq<char>,
    files: Seq<FileMetaView>,
    sources: Seq<Seq<char>>,
    now: i64,
    i: int,
)
    requires
        0 <= i < files.len() <= sources.len(),
        sources[i].len() > 0,
    ensures
        sent_messages(id, peer_id, files, sources, now).len() == files.len(),
        ({
            let m = sent_messages(id, peer_id, files, sources, now)[i];
            &&& m.peer_id == peer_id
            &&& m.outgoing
            &&& m.created_at == now
            &&& m.kind == (MessageKindView::File {
                name: files[i].name,
                size: files[i].size,
                saved_path: Some(sources[i]),
                transfer_id: Some(id),
                file_id: Some(files[i].id),
            })
        }),
{
}

proof fn lemma_transfer_found(s: Seq<TransferStateView>, id: Seq<char>, i: int)
    requires
        transfer_at(s, id, i),
    ensures
        transfer_index(s, id) == Some(i),
{
    let p = choose|p: int| transfer_at(s, id, p);
    assert(transfer_at(s, id, p));
    if p < i {
        assert(s[p].id != id);
    } else if i < p {
        assert(s[i].id != id);
    }
}

proof fn lemma_file_found(s: Seq<TransferFileView>, id: Seq<char>, i: int)
    requires
        file_at(s, id, i),
    ensures
        file_index(s, id) == Some(i),
{
    let p = choose|p: int| file_at(s, id, p);
    assert(file_at(s, id, p));
    if p < i {
        assert(s[p].meta.id != id);
    } else if i < p {
        assert(s[i].meta.id != id);
    }
}

/// Progress of a file is shown with that file of that transfer, and changes no
/// other file and no other transfer; with the end of a file comes where it was
/// saved.
pub proof fn law_progress_is_shown_with_its_file(
    v: UiView,
    i: int,
    k: int,
    transferred: u64,
    total: u64,
    done: bool,
    path: Option<Seq<char>>,
    foreground: bool,
    now: i64,
    now_ns: u64,
)
    requires
        0 <= i < v.transfers.len(),
        transfer_at(v.transfers, v.transfers[i].id, i),
        0 <= k < v.transfers[i].files.len(),
        file_at(v.transfers[i].files, v.transfers[i].files[k].meta.id, k),
    ensures
        ({
            let ev = CoreEventView::FileProgress {
                transfer_id: v.transfers[i].id,
                file_id: v.transfers[i].files[k].meta.id,
                transferred,
                total,
                done,
                path,
            };
            let after = after_event(v, ev, foreground, now, now_ns);
            let before = v.transfers[i].files[k];
            let f = after.transfers[i].files[k];
            &&& f.transferred == transferred
            &&& f.done == done
            &&& f.meta == before.meta
            &&& f.source == before.source
            &&& done ==> f.saved_path == path
            &&& !done ==> f.saved_path == before.saved_path
            &&& after.transfers.len() == v.transfers.len()
            &&& after.transfers[i].files.len() == v.transfers[i].files.len()
            &&& after.transfers[i].error == v.transfers[i].error
            &&& after.transfers[i].id == v.transfers[i].id
            &&& after.transfers[i].peer_id == v.transfers[i].peer_id
            &&& forall|j: int|
                0 <= j < v.transfers[i].files.len() && j != k
                    ==> #[trigger] after.transfers[i].files[j] == v.transfers[i].files[j]
            &&& forall|j: int|
                0 <= j < v.transfers.len() && j != i ==> #[trigger] after.transfers[j]
                    == v.transfers[j]
            &&& after.chats == v.chats
        }),
{
    lemma_transfer_found(v.transfers, v.transfers[i].id, i);
    lemma_file_found(v.transfers[i].files, v.transfers[i].files[k].meta.id, k);
}

/// The end of a transfer is shown with that transfer, by its error or by all
/// its files being complete, and changes no other. Only a success in the
/// background disturbs.
pub proof fn law_end_is_shown_with_its_transfer(
    v: UiView,
    i: int,
    error: Option<Seq<char>>,
    foreground: bool,
    now: i64,
    now_ns: u64,
)
    requires
        0 <= i < v.transfers.len(),
        transfer_at(v.transfers, v.transfers[i].id, i),
    ensures
        ({
            let ev = CoreEventView::TransferFinished { transfer_id: v.transfers[i].id, error };
            let after = after_event(v, ev, foreground, now, now_ns);
            let effects = event_effects(v, ev, foreground, now);
            let t = after.transfers[i];
            &&& t.error == error
            &&& t.rate is None
            &&& t.id == v.transfers[i].id
            &&& t.peer_id == v.transfers[i].peer_id
            &&& error is Some ==> t.files == v.transfers[i].files
            &&& error is None ==> t.files.len() == v.transfers[i].files.len() && forall|k: int|
                0 <= k < t.files.len() ==> {
                    let f = #[trigger] t.files[k];
                    &&& f.done
                    &&& f.transferred >= f.meta.size
                    &&& f.meta == v.transfers[i].files[k].meta
                    &&& f.saved_path == v.transfers[i].files[k].saved_path
                    &&& f.source == v.transfers[i].files[k].source
                }
            &&& after.transfers.len() == v.transfers.len()
            &&& forall|j: int|
                0 <= j < v.transfers.len() && j != i ==> #[trigger] after.transfers[j]
                    == v.transfers[j]
            &&& effects.len() > 0 <==> error is None && !foreground
            &&& after.chats == v.chats
        }),
{
    lemma_transfer_found(v.transfers, v.transfers[i].id, i);
}

/// Errors and notices are shown as such, and change nothing else.
pub proof fn law_notices_are_shown(
    v: UiView,
    context: Seq<char>,
    message: Seq<char>,
    foreground: bool,
    now: i64,
    now_ns: u64,
)
    ensures
        ({
            let bad = after_event(
                v,
                CoreEventView::Error { context, message },
                foreground,
                now,
                now_ns,
            );
            let good = after_event(v, CoreEventView::Info(message), foreground, now, now_ns);
            &&& bad.toast is Some && bad.toast->Some_0.is_error && bad.toast->Some_0.at_ms == now
            &&& bad.toast->Some_0.text == context + "："@ + message
            &&& good.toast is Some && !good.toast->Some_0.is_error
            &&& good.toast->Some_0.text == message
            &&& bad == (UiView { toast: bad.toast, ..v })
            &&& good == (UiView { toast: good.toast, ..v })
        }),
{
}

/// What moved between two measurements is what came in since, over the time
/// since; there is none where nothing moved, and none sooner than four tenths
/// of a second after the last one.
pub proof fn law_rate_is_what_moved(t: TransferStateView, at: u64, prev: u128, now_ns: u64)
    requires
        t.last_sample == Some((at, prev)),
        moved_of(t.files) <= u128::MAX,
    ensures
        now_ns - at < 400_000_000 ==> sampled(t, now_ns) == t,
        now_ns - at >= 400_000_000 && moved_of(t.files) > prev ==> sampled(t, now_ns).rate == Some(
            ((moved_of(t.files) - prev) as u128, (now_ns - at) as u64),
        ),
        now_ns - at >= 400_000_000 && moved_of(t.files) <= prev ==> sampled(
            t,
            now_ns,
        ).rate is None,
        now_ns - at >= 400_000_000 ==> sampled(t, now_ns).last_sample == Some(
            (now_ns, moved_of(t.files) as u128),
        ),
        sampled(t, now_ns).files == t.files,
{
}

/// Sizes add up over the files of a transfer.
pub proof fn law_sizes_add_up(a: Seq<TransferFileView>, b: Seq<TransferFileView>, f: TransferFileView)
    ensures
        total_of(a + b) == total_of(a) + total_of(b),
        moved_of(a + b) == moved_of(a) + moved_of(b),
        total_of(seq![f]) == f.meta.size,
        moved_of(seq![f]) == f.transferred,
    decreases b.len(),
{
    let all = a + b;
    if b.len() == 0 {
        assert(all =~= a);
    } else {
        law_sizes_add_up(a, b.drop_last(), f);
        assert(all.drop_last() =~= a + b.drop_last());
        assert(all.last() == b.last());
    }
    assert(seq![f].drop_last() =~= Seq::<TransferFileView>::empty());
    assert(total_of(Seq::<TransferFileView>::empty()) == 0);
    assert(moved_of(Seq::<TransferFileView>::empty()) == 0);
    assert(seq![f].last() == f);
}

/// What the user sends in a conversation goes to the other side of that
/// conversation, as it was given: to the browsers, or to the device.
pub proof fn law_sent_to_the_open_conversation(
    peer: Seq<char>,
    said: Seq<char>,
    chosen: Seq<Seq<char>>,
)
    ensures
        peer == "__web__"@ ==> text_command(peer, said) == (UiCommandView::WebText { text: said }),
        peer != "__web__"@ ==> text_command(peer, said) == (UiCommandView::SendText {
            peer_id: peer,
            text: said,
        }),
        peer == "__web__"@ ==> files_command(peer, chosen) == (UiCommandView::WebOffer {
            paths: chosen,
        }),
        peer != "__web__"@ ==> files_command(peer, chosen) == (UiCommandView::SendFiles {
            peer_id: peer,
            paths: chosen,
        }),
{
}

/// One click deletes nothing; a second one within three seconds empties the
/// conversation that is open, and no other.
pub proof fn law_clearing_takes_two_clicks(v: UiView, peer: Seq<char>, first: i64, second: i64)
    requires
        v.selected == Some(peer),
        v.confirm_clear is None,
        second - first < 3000,
    ensures
        ({
            let once = after_clear_click(v, first);
            let twice = after_clear_click(once, second);
            &&& once.chats == v.chats
            &&& once.unread == v.unread
            &&& chat_of(twice, peer).len() == 0
            &&& unread_of(twice, peer) == 0
            &&& twice.confirm_clear is None
            &&& twice.selected == v.selected
            &&& forall|other: Seq<char>|
                other != peer ==> #[trigger] chat_of(twice, other) == chat_of(v, other)
            &&& forall|other: Seq<char>|
                other != peer ==> #[trigger] unread_of(twice, other) == unread_of(v, other)
        }),
{
}

/// A second click that comes too late, or in another conversation, deletes
/// nothing either.
pub proof fn law_late_click_clears_nothing(v: UiView, now: i64)
    requires
        v.confirm_clear matches Some((p, at)) ==> v.selected != Some(p) || now - at >= 3000,
    ensures
        after_clear_click(v, now).chats == v.chats,
{
}

/// Messages that stay after some were deleted stay in their order.
pub proof fn law_deleting_keeps_the_order(
    a: Seq<ChatMessageView>,
    b: Seq<ChatMessageView>,
    ids: Seq<i64>,
    m: ChatMessageView,
)
    ensures
        without_ids(a + b, ids) == without_ids(a, ids) + without_ids(b, ids),
        ids.contains(m.id) ==> without_ids(seq![m], ids).len() == 0,
        !ids.contains(m.id) ==> without_ids(seq![m], ids) == seq![m],
    decreases b.len(),
{
    let all = a + b;
    if b.len() == 0 {
        assert(all =~= a);
        assert(without_ids(a, ids) + without_ids(b, ids) =~= without_ids(a, ids));
    } else {
        law_deleting_keeps_the_order(a, b.drop_last(), ids, m);
        assert(all.drop_last() =~= a + b.drop_last());
        assert(all.last() == b.last());
        assert(without_ids(all, ids) =~= without_ids(a, ids) + without_ids(b, ids));
    }
    assert(seq![m].drop_last() =~= Seq::<ChatMessageView>::empty());
    assert(seq![m].last() == m);
    assert(without_ids(Seq::<ChatMessageView>::empty(), ids) =~= Seq::<ChatMessageView>::empty());
    if !ids.contains(m.id) {
        assert(without_ids(seq![m], ids) =~= seq![m]);
    }
}

/// The user is asked about exactly the files that something is in the way
/// of, by their names.
pub proof fn law_every_conflict_is_asked(
    files: Seq<FileMetaView>,
    there: Seq<bool>,
    name: Seq<char>,
)
    requires
        files.len() <= there.len(),
    ensures
        conflict_names(files, there).contains(name) <==> exists|i: int|
            0 <= i < files.len() && there[i] && (#[trigger] files[i]).name == name,
        (forall|i: int| 0 <= i < files.len() ==> !there[i]) ==> conflict_names(
            files,
            there,
        ).len() == 0,
        (forall|i: int| 0 <= i < files.len() ==> there[i]) ==> conflict_names(files, there).len()
            == files.len(),
    decreases files.len(),
{
    if files.len() > 0 {
        let n = files.len() - 1;
        let t = files.drop_last();
        law_every_conflict_is_asked(t, there, name);
        let h = conflict_names(t, there);
        let g = conflict_names(files, there);
        if g.contains(name) {
            let k = choose|k: int| 0 <= k < g.len() && g[k] == name;
            if k < h.len() {
                assert(h[k] == name);
                let i = choose|i: int|
                    0 <= i < t.len() && there[i] && (#[trigger] t[i]).name == name;
                assert(files[i] == t[i]);
            } else {
                assert(files[n].name == name);
            }
        }
        if exists|i: int| 0 <= i < files.len() && there[i] && (#[trigger] files[i]).name == name {
            let i = choose|i: int|
                0 <= i < files.len() && there[i] && (#[trigger] files[i]).name == name;
            if i < t.len() {
                assert(t[i] == files[i]);
                let k = choose|k: int| 0 <= k < h.len() && h[k] == name;
                assert(g[k] == h[k]);
            } else {
                assert(g[g.len() - 1] == name);
            }
        }
    }
}

/// Whether something is in the way is asked of the very place where the file
/// would be saved.
pub proof fn law_conflicts_are_looked_for_where_files_go(
    dir: Seq<char>,
    f: FileMetaView,
    sys: System,
)
    ensures
        landing(dir, f, sys) == server::wanted_path(dir, f.rel_path, sys),
{
}

/// What the user decides on a request is what is answered to it; an accepted
/// request waits no more, and the others wait on.
pub proof fn law_decision_is_sent(v: UiView, req_id: Seq<char>, accept: bool, overwrite: bool)
    ensures
        respond_command(req_id, accept, overwrite) is RespondRequest,
        respond_command(req_id, accept, overwrite)->req_id == req_id,
        respond_command(req_id, accept, overwrite)->accept == accept,
        respond_command(req_id, accept, overwrite)->overwrite == overwrite,
        after_accept(v, req_id).overwrite_req is None,
        forall|q: IncomingReqView|
            #[trigger] after_accept(v, req_id).incoming.contains(q) <==> v.incoming.contains(q)
                && q.req_id != req_id,
        after_accept(v, req_id).chats == v.chats,
        after_accept(v, req_id).selected == v.selected,
{
    lemma_without_req(v.incoming, req_id);
}

/// Opening a conversation reads its history once.
pub proof fn law_history_is_read_once(v: UiView, peer: Seq<char>)
    requires
        v.selected != Some(peer),
    ensures
        after_select(v, peer).selected == Some(peer),
        after_select(v, peer).loaded.dom().contains(peer),
        select_effects(v, peer)[0] is SetUnread,
        v.loaded.dom().contains(peer) ==> select_effects(v, peer).len() == 1,
        !v.loaded.dom().contains(peer) ==> select_effects(v, peer).len() == 2 && select_effects(
            v,
            peer,
        )[1] == (UiEffectView::LoadHistory { peer }),
        select_effects(after_select(v, peer), peer).len() == 0,
        after_select(v, peer).devices == v.devices,
        after_select(v, peer).transfers == v.transfers,
        after_select(v, peer).incoming == v.incoming,
{
}

/// How the window closes is remembered exactly where the user ticked that,
/// and then saved; nothing else of the settings changes.
pub proof fn law_close_choice_is_remembered_on_demand(v: UiView, action: Seq<char>)
    ensures
        ({
            let after = after_close_choice(v, action);
            let effects = close_choice_effects(v, action);
            &&& v.close_remember ==> after.config.close_action == action
            &&& !v.close_remember ==> after.config == v.config
            &&& after.config.device_id == v.config.device_id
            &&& after.config.device_name == v.config.device_name
            &&& after.config.download_dir == v.config.download_dir
            &&& after.config.http_port == v.config.http_port
            &&& after.config.auto_receive == v.config.auto_receive
            &&& !after.show_close_dialog
            &&& effects.contains(UiEffectView::SaveConfig) <==> v.close_remember
            &&& effects.contains(UiEffectView::HideWindow) <==> action == "tray"@
        }),
{
    let effects = close_choice_effects(v, action);
    if v.close_remember {
        assert(effects[0] is SaveConfig);
    }
    if action == "tray"@ {
        assert(effects.last() is HideWindow);
    }
}

/// The settings take what was typed, without outer white space; what was left
/// empty, and a port that is none, change nothing; the identity of the device
/// never changes.
pub proof fn law_settings_take_what_was_typed(
    c: ConfigView,
    name: Seq<char>,
    dir: Seq<char>,
    port: Seq<char>,
)
    ensures
        ({
            let r = edited(c, name, dir, port);
            &&& r.device_id == c.device_id
            &&& r.auto_receive == c.auto_receive
            &&& r.close_action == c.close_action
            &&& text::trimmed(name).len() > 0 ==> r.device_name == text::trimmed(name)
            &&& text::trimmed(name).len() == 0 ==> r.device_name == c.device_name
            &&& text::trimmed(dir).len() > 0 ==> r.download_dir == text::trimmed(dir)
            &&& text::trimmed(dir).len() == 0 ==> r.download_dir == c.download_dir
            &&& port_of(port) is None ==> r.http_port == c.http_port
            &&& port_of(port) matches Some(p) ==> r.http_port == p
        }),
{
}

/// A request that ran out is taken from those that wait, and nothing else
/// changes; that, and progress, disturb nobody.
pub proof fn law_expiry_takes_the_request_away(
    v: UiView,
    req_id: Seq<char>,
    foreground: bool,
    now: i64,
    now_ns: u64,
)
    ensures
        ({
            let ev = CoreEventView::RequestExpired { req_id };
            let after = after_event(v, ev, foreground, now, now_ns);
            &&& forall|q: IncomingReqView|
                #[trigger] after.incoming.contains(q) <==> v.incoming.contains(q) && q.req_id
                    != req_id
            &&& after == (UiView { incoming: after.incoming, ..v })
            &&& event_effects(v, ev, foreground, now).len() == 0
        }),
{
    lemma_without_req(v.incoming, req_id);
}

/// A first device that comes up has its conversation opened, with its history;
/// a device that comes up later opens nothing.
pub proof fn law_first_device_is_opened(v: UiView, d: DeviceView, foreground: bool, now: i64)
    ensures
        ({
            let effects = event_effects(v, CoreEventView::DeviceUp(d), foreground, now);
            &&& effects[0] is SetUnread
            &&& v.selected is Some ==> effects.len() == 2
            &&& v.selected is None && !v.loaded.dom().contains(d.info.id) ==> effects.len() == 4
                && effects[3] == (UiEffectView::LoadHistory { peer: d.info.id })
            &&& v.selected is None && v.loaded.dom().contains(d.info.id) ==> effects.len() == 3
        }),
{
}

/// The user is told of what came by the name of who sent it and of what it
/// was.
pub proof fn law_success_is_told_by_name(v: UiView, i: int, now: i64)
    requires
        0 <= i < v.transfers.len(),
        transfer_at(v.transfers, v.transfers[i].id, i),
    ensures
        event_effects(
            v,
            CoreEventView::TransferFinished { transfer_id: v.transfers[i].id, error: None },
            false,
            now,
        ) == seq![
            UiEffectView::Notify {
                title: "已接收 · "@ + name_of_peer(v, v.transfers[i].peer_id),
                body: client::batch_name(rels_of(v.transfers[i].files)),
            },
            UiEffectView::FlashTaskbar,
        ],
        rels_of(v.transfers[i].files).len() == v.transfers[i].files.len(),
        forall|k: int|
            0 <= k < v.transfers[i].files.len() ==> #[trigger] rels_of(v.transfers[i].files)[k]
                == v.transfers[i].files[k].meta.rel_path,
{
    lemma_transfer_found(v.transfers, v.transfers[i].id, i);
}

} // verus!

//! Receiving: messages, requests to send files, and the files themselves.

use vstd::prelude::*;
use vstd::string::*;

use crate::discovery;
use crate::discovery::{note_peer, Registry};
use crate::ids;
use crate::ids::new_id;
use crate::paths;
use crate::paths::{join_path, number_path, starts_with, System};
use crate::proto;
use crate::proto::{
    Addr, AddrView, ChatMessage, ChatMessageView, CoreEvent, CoreEventView, Device, DeviceInfo,
    DeviceInfoView, DeviceView, FileMeta, FileMetaView, MessageBody, MessageKind, MessageKindView,
    PrepareBody, ProgressThrottle,
};
use crate::text;
use crate::text::{cat, same_text, to_decimal, trim};
use crate::web::{WebOffer, WebOfferView};

verus! {

/// How long the user has to decide on a request.
pub const PREPARE_TIMEOUT_SECS: u64 = 60;

/// A request with more files than this is refused.
pub const MAX_REQUEST_FILES: usize = 4096;

/// A session that got nothing new in this many checks is given up.
pub const STALL_LIMIT: u32 = 6;

/// The extension of a file that is still being received.
pub const PART_EXTENSION: &'static str = "ltuploading";

/// The answer to a request that is not granted.
#[derive(Debug, PartialEq, Eq)]
pub struct Reply {
    pub code: u16,
    pub text: String,
}

/// [`Reply`] as the contracts speak of it.
#[verifier::ext_equal]
pub struct ReplyView {
    pub code: u16,
    pub text: Seq<char>,
}

impl DeepView for Reply {
    type V = ReplyView;

    open spec fn deep_view(&self) -> ReplyView {
        ReplyView {
            code: self.code.deep_view(),
            text: self.text.deep_view(),
        }
    }
}

impl Clone for Reply {
    fn clone(&self) -> (r: Self)
        ensures
            r.deep_view() == self.deep_view(),
    {
        let r = Reply {
            code: self.code,
            text: self.text.clone(),
        };
        r
    }
}

/// What the user decided on a request.
#[derive(Debug, PartialEq, Eq)]
pub struct Decision {
    pub accept: bool,
    pub save_dir: Option<String>,
    /// Whether files of the same name are replaced.
    pub overwrite: bool,
}

/// [`Decision`] as the contracts speak of it.
#[verifier::ext_equal]
pub struct DecisionView {
    pub accept: bool,
    pub save_dir: Option<Seq<char>>,
    pub overwrite: bool,
}

impl DeepView for Decision {
    type V = DecisionView;

    open spec fn deep_view(&self) -> DecisionView {
        DecisionView {
            accept: self.accept.deep_view(),
            save_dir: self.save_dir.deep_view(),
            overwrite: self.overwrite.deep_view(),
        }
    }
}

impl Clone for Decision {
    fn clone(&self) -> (r: Self)
        ensures
            r.deep_view() == self.deep_view(),
    {
        let r = Decision {
            accept: self.accept,
            save_dir: self.save_dir.clone(),
            overwrite: self.overwrite,
        };
        r
    }
}

/// A request that waits for the user.
#[derive(Debug, PartialEq, Eq)]
pub struct PendingRequest {
    pub req_id: String,
    pub peer: Device,
    pub files: Vec<FileMeta>,
}

/// [`PendingRequest`] as the contracts speak of it.
#[verifier::ext_equal]
pub struct PendingRequestView {
    pub req_id: Seq<char>,
    pub peer: DeviceView,
    pub files: Seq<FileMetaView>,
}

impl DeepView for PendingRequest {
    type V = PendingRequestView;

    open spec fn deep_view(&self) -> PendingRequestView {
        PendingRequestView {
            req_id: self.req_id.deep_view(),
            peer: self.peer.deep_view(),
            files: self.files.deep_view(),
        }
    }
}

impl Clone for PendingRequest {
    fn clone(&self) -> (r: Self)
        ensures
            r.deep_view() == self.deep_view(),
    {
        let r = PendingRequest {
            req_id: self.req_id.clone(),
            peer: self.peer.clone(),
            files: self.files.clone(),
        };
        assert(r.files.deep_view() =~= self.files.deep_view());
        r
    }
}

/// Files that are being received.
#[derive(Debug, PartialEq, Eq)]
pub struct RecvSession {
    /// What sender and receiver know the transfer by.
    pub token: String,
    pub peer_id: String,
    pub peer_name: String,
    pub files: Vec<FileMeta>,
    pub save_dir: String,
    pub overwrite: bool,
    /// How many files are complete.
    pub completed: usize,
    /// The message of each file, by file id.
    pub msg_ids: Vec<(String, i64)>,
    /// How much came in, over all files.
    pub progress_bytes: u64,
}

/// [`RecvSession`] as the contracts speak of it.
#[verifier::ext_equal]
pub struct RecvSessionView {
    pub token: Seq<char>,
    pub peer_id: Seq<char>,
    pub peer_name: Seq<char>,
    pub files: Seq<FileMetaView>,
    pub save_dir: Seq<char>,
    pub overwrite: bool,
    pub completed: usize,
    pub msg_ids: Seq<(Seq<char>, i64)>,
    pub progress_bytes: u64,
}

impl DeepView for RecvSession {
    type V = RecvSessionView;

    open spec fn deep_view(&self) -> RecvSessionView {
        RecvSessionView {
            token: self.token.deep_view(),
            peer_id: self.peer_id.deep_view(),
            peer_name: self.peer_name.deep_view(),
            files: self.files.deep_view(),
            save_dir: self.save_dir.deep_view(),
            overwrite: self.overwrite.deep_view(),
            completed: self.completed.deep_view(),
            msg_ids: self.msg_ids.deep_view(),
            progress_bytes: self.progress_bytes.deep_view(),
        }
    }
}

/// What the receiving side knows.
#[derive(Debug)]
pub struct ServerState {
    pub me: DeviceInfo,
    pub registry: Registry,
    pub download_dir: String,
    /// The system that the files are saved on.
    pub system: System,
    pub pending: Vec<PendingRequest>,
    pub sessions: Vec<RecvSession>,
    /// What browsers can download.
    pub offers: Vec<WebOffer>,
}

/// [`ServerState`] as the contracts speak of it.
#[verifier::ext_equal]
pub struct ServerView {
    pub me: DeviceInfoView,
    pub devices: Seq<DeviceView>,
    pub download_dir: Seq<char>,
    pub system: System,
    pub pending: Seq<PendingRequestView>,
    pub sessions: Seq<RecvSessionView>,
    pub offers: Seq<WebOfferView>,
}

impl View for ServerState {
    type V = ServerView;

    open spec fn view(&self) -> ServerView {
        ServerView {
            me: self.me.deep_view(),
            devices: self.registry@,
            download_dir: self.download_dir@,
            system: self.system,
            pending: self.pending.deep_view(),
            sessions: self.sessions.deep_view(),
            offers: self.offers.deep_view(),
        }
    }
}

/// No two sessions have the same token.
pub open spec fn tokens_unique(s: Seq<RecvSessionView>) -> bool {
    forall|i: int, j: int|
        0 <= i < j < s.len() ==> (#[trigger] s[i]).token != (#[trigger] s[j]).token
}

/// Every session still waits for a file.
pub open spec fn all_open(s: Seq<RecvSessionView>) -> bool {
    forall|i: int| 0 <= i < s.len() ==> (#[trigger] s[i]).completed < s[i].files.len()
}

/// No two requests have the same id.
pub open spec fn requests_unique(s: Seq<PendingRequestView>) -> bool {
    forall|i: int, j: int|
        0 <= i < j < s.len() ==> (#[trigger] s[i]).req_id != (#[trigger] s[j]).req_id
}

pub open spec fn server_wf(v: ServerView) -> bool {
    &&& discovery::ids_unique(v.devices)
    &&& tokens_unique(v.sessions)
    &&& all_open(v.sessions)
    &&& requests_unique(v.pending)
}

pub open spec fn session_at(s: Seq<RecvSessionView>, token: Seq<char>, i: int) -> bool {
    0 <= i < s.len() && s[i].token == token
}

pub open spec fn find_session(s: Seq<RecvSessionView>, token: Seq<char>) -> Option<int> {
    if exists|i: int| session_at(s, token, i) {
        Some(choose|i: int| session_at(s, token, i))
    } else {
        None
    }
}

/// The sessions but the one with this token.
pub open spec fn without_session(s: Seq<RecvSessionView>, token: Seq<char>) -> Seq<
    RecvSessionView,
> {
    match find_session(s, token) {
        Some(i) => s.remove(i),
        None => s,
    }
}

pub open spec fn request_at(s: Seq<PendingRequestView>, id: Seq<char>, i: int) -> bool {
    0 <= i < s.len() && s[i].req_id == id
}

pub open spec fn find_request(s: Seq<PendingRequestView>, id: Seq<char>) -> Option<int> {
    if exists|i: int| request_at(s, id, i) {
        Some(choose|i: int| request_at(s, id, i))
    } else {
        None
    }
}

/// The requests but the one with this id.
pub open spec fn without_request(s: Seq<PendingRequestView>, id: Seq<char>) -> Seq<
    PendingRequestView,
> {
    match find_request(s, id) {
        Some(i) => s.remove(i),
        None => s,
    }
}

proof fn lemma_session_at(s: Seq<RecvSessionView>, token: Seq<char>, i: int)
    requires
        tokens_unique(s),
        session_at(s, token, i),
    ensures
        find_session(s, token) == Some(i),
{
    let p = choose|p: int| session_at(s, token, p);
    assert(session_at(s, token, p));
    if p < i {
        assert(s[p].token != s[i].token);
    } else if i < p {
        assert(s[i].token != s[p].token);
    }
}

proof fn lemma_request_at(s: Seq<PendingRequestView>, id: Seq<char>, i: int)
    requires
        requests_unique(s),
        request_at(s, id, i),
    ensures
        find_request(s, id) == Some(i),
{
    let p = choose|p: int| request_at(s, id, p);
    assert(request_at(s, id, p));
    if p < i {
        assert(s[p].req_id != s[i].req_id);
    } else if i < p {
        assert(s[i].req_id != s[p].req_id);
    }
}

/// Once a session is taken out it is gone, and the others are as they were.
pub proof fn law_removed_session_is_gone(s: Seq<RecvSessionView>, token: Seq<char>)
    requires
        tokens_unique(s),
    ensures
        tokens_unique(without_session(s, token)),
        all_open(s) ==> all_open(without_session(s, token)),
        find_session(without_session(s, token), token) is None,
        forall|i: int|
            0 <= i < s.len() && (#[trigger] s[i]).token != token ==> without_session(
                s,
                token,
            ).contains(s[i]),
{
    let r = without_session(s, token);
    match find_session(s, token) {
        Some(p) => {
            assert(session_at(s, token, p));
            assert forall|i: int, j: int| 0 <= i < j < r.len() implies (#[trigger] r[i]).token != (
            #[trigger] r[j]).token by {
                let a = if i < p {
                    i
                } else {
                    i + 1
                };
                let b = if j < p {
                    j
                } else {
                    j + 1
                };
                assert(s[a].token != s[b].token);
            }
            if all_open(s) {
                assert forall|i: int| 0 <= i < r.len() implies (#[trigger] r[i]).completed
                    < r[i].files.len() by {
                    let a = if i < p {
                        i
                    } else {
                        i + 1
                    };
                    assert(r[i] == s[a]);
                }
            }
            assert forall|i: int| !session_at(r, token, i) by {
                if session_at(r, token, i) {
                    let a = if i < p {
                        i
                    } else {
                        i + 1
                    };
                    assert(r[i] == s[a]);
                    if a < p {
                        assert(s[a].token != s[p].token);
                    } else {
                        assert(s[p].token != s[a].token);
                    }
                }
            }
            assert forall|i: int| 0 <= i < s.len() && (#[trigger] s[i]).token
                != token implies r.contains(s[i]) by {
                let k = if i < p {
                    i
                } else {
                    i - 1
                };
                assert(r[k] == s[i]);
            }
        },
        None => {
            assert forall|i: int| 0 <= i < s.len() && (#[trigger] s[i]).token
                != token implies r.contains(s[i]) by {
                assert(r[i] == s[i]);
            }
        },
    }
}

/// Once a request is taken out it is gone, and the others are as they were.
pub proof fn law_removed_request_is_gone(s: Seq<PendingRequestView>, id: Seq<char>)
    requires
        requests_unique(s),
    ensures
        requests_unique(without_request(s, id)),
        find_request(without_request(s, id), id) is None,
        forall|i: int|
            0 <= i < s.len() && (#[trigger] s[i]).req_id != id ==> without_request(s, id).contains(
                s[i],
            ),
{
    let r = without_request(s, id);
    assert forall|i: int| 0 <= i < s.len() && (#[trigger] s[i]).req_id != id implies r.contains(
        s[i],
    ) by {
        match find_request(s, id) {
            Some(p) => {
                assert(request_at(s, id, p));
                let k = if i < p {
                    i
                } else {
                    i - 1
                };
                assert(r[k] == s[i]);
            },
            None => {
                assert(r[i] == s[i]);
            },
        }
    }
    match find_request(s, id) {
        Some(p) => {
            assert(request_at(s, id, p));
            assert forall|i: int, j: int| 0 <= i < j < r.len() implies (#[trigger] r[i]).req_id
                != (#[trigger] r[j]).req_id by {
                let a = if i < p {
                    i
                } else {
                    i + 1
                };
                let b = if j < p {
                    j
                } else {
                    j + 1
                };
                assert(s[a].req_id != s[b].req_id);
            }
            assert forall|i: int| !request_at(r, id, i) by {
                if request_at(r, id, i) {
                    let a = if i < p {
                        i
                    } else {
                        i + 1
                    };
                    assert(r[i] == s[a]);
                    if a < p {
                        assert(s[a].req_id != s[p].req_id);
                    } else {
                        assert(s[p].req_id != s[a].req_id);
                    }
                }
            }
        },
        None => {},
    }
}

fn reply(code: u16, text: &str) -> (r: Reply)
    ensures
        r.deep_view() == (ReplyView { code, text: text@ }),
{
    Reply { code, text: text.to_owned() }
}

impl ServerState {
    pub open spec fn wf(&self) -> bool {
        server_wf(self@)
    }

    pub fn new(me: DeviceInfo, download_dir: String, system: System) -> (r: Self)
        ensures
            r.wf(),
            r@ == (ServerView {
                me: me.deep_view(),
                devices: Seq::empty(),
                download_dir: download_dir@,
                system,
                pending: Seq::empty(),
                sessions: Seq::empty(),
                offers: Seq::empty(),
            }),
    {
        let r = ServerState {
            me,
            registry: Registry::default(),
            download_dir,
            system,
            pending: Vec::new(),
            sessions: Vec::new(),
            offers: Vec::new(),
        };
        assert(r.pending.deep_view() =~= Seq::<PendingRequestView>::empty());
        assert(r.sessions.deep_view() =~= Seq::<RecvSessionView>::empty());
        assert(r.offers.deep_view() =~= Seq::<WebOfferView>::empty());
        r
    }

    fn session_index(&self, token: &str) -> (r: Option<usize>)
        requires
            self.wf(),
        ensures
            match r {
                Some(i) => find_session(self@.sessions, token@) == Some(i as int) && i
                    < self.sessions@.len(),
                None => find_session(self@.sessions, token@) is None,
            },
    {
        let ghost all = self@.sessions;
        let mut i: usize = 0;
        while i < self.sessions.len()
            invariant
                self.wf(),
                all == self@.sessions,
                i <= self.sessions@.len(),
                forall|k: int| 0 <= k < i ==> (#[trigger] all[k]).token != token@,
            decreases self.sessions@.len() - i,
        {
            assert(all[i as int] == self.sessions@[i as int].deep_view());
            if same_text(self.sessions[i].token.as_str(), token) {
                proof {
                    assert(session_at(all, token@, i as int));
                    lemma_session_at(all, token@, i as int);
                }
                return Some(i);
            }
            i = i + 1;
        }
        None
    }

    fn request_index(&self, id: &str) -> (r: Option<usize>)
        requires
            self.wf(),
        ensures
            match r {
                Some(i) => find_request(self@.pending, id@) == Some(i as int) && i
                    < self.pending@.len(),
                None => find_request(self@.pending, id@) is None,
            },
    {
        let ghost all = self@.pending;
        let mut i: usize = 0;
        while i < self.pending.len()
            invariant
                self.wf(),
                all == self@.pending,
                i <= self.pending@.len(),
                forall|k: int| 0 <= k < i ==> (#[trigger] all[k]).req_id != id@,
            decreases self.pending@.len() - i,
        {
            assert(all[i as int] == self.pending@[i as int].deep_view());
            if same_text(self.pending[i].req_id.as_str(), id) {
                proof {
                    assert(request_at(all, id@, i as int));
                    lemma_request_at(all, id@, i as int);
                }
                return Some(i);
            }
            i = i + 1;
        }
        None
    }

    /// Takes a session out; it comes back where there was one.
    fn take_session(&mut self, token: &str) -> (r: Option<RecvSession>)
        requires
            old(self).wf(),
        ensures
            final(self).wf(),
            final(self)@ == (ServerView {
                sessions: without_session(old(self)@.sessions, token@),
                ..old(self)@
            }),
            r.deep_view() == (match find_session(old(self)@.sessions, token@) {
                Some(i) => Some(old(self)@.sessions[i]),
                None => None,
            }),
    {
        let ghost all = self@.sessions;
        proof {
            law_removed_session_is_gone(all, token@);
        }
        match self.session_index(token) {
            Some(i) => {
                assert(all[i as int] == self.sessions@[i as int].deep_view());
                let s = self.sessions.remove(i);
                assert(self@.sessions =~= all.remove(i as int));
                Some(s)
            },
            None => None,
        }
    }

    /// Takes a request out; it comes back where there was one.
    fn take_request(&mut self, id: &str) -> (r: Option<PendingRequest>)
        requires
            old(self).wf(),
        ensures
            final(self).wf(),
            final(self)@ == (ServerView {
                pending: without_request(old(self)@.pending, id@),
                ..old(self)@
            }),
            r.deep_view() == (match find_request(old(self)@.pending, id@) {
                Some(i) => Some(old(self)@.pending[i]),
                None => None,
            }),
    {
        let ghost all = self@.pending;
        proof {
            law_removed_request_is_gone(all, id@);
        }
        match self.request_index(id) {
            Some(i) => {
                assert(all[i as int] == self.pending@[i as int].deep_view());
                let p = self.pending.remove(i);
                assert(self@.pending =~= all.remove(i as int));
                Some(p)
            },
            None => None,
        }
    }
}

// ---------------------------------------------------------------------------
// Text messages
// ---------------------------------------------------------------------------

/// Whether a message is one that can be taken: it says something, and does
/// not come from this device.
pub open spec fn message_ok(v: ServerView, body_text: Seq<char>, sender_id: Seq<char>) -> bool {
    text::trimmed(body_text).len() > 0 && sender_id != v.me.id
}

/// The state after a peer was heard of by a request.
pub open spec fn with_peer(
    v: ServerView,
    info: DeviceInfoView,
    addr: AddrView,
    now: i64,
) -> ServerView {
    ServerView { devices: discovery::after_announce(v.devices, info, addr, now), ..v }
}

/// A text message as it goes to the history, under the number it gets there.
pub open spec fn text_message(
    id: i64,
    peer_id: Seq<char>,
    outgoing: bool,
    t: Seq<char>,
    at: i64,
) -> ChatMessageView {
    ChatMessageView {
        id,
        peer_id,
        outgoing,
        kind: MessageKindView::Text(t),
        created_at: at,
    }
}

pub fn make_text_message(
    id: i64,
    peer_id: &str,
    outgoing: bool,
    t: &str,
    at: i64,
) -> (r: ChatMessage)
    ensures
        r.deep_view() == text_message(id, peer_id@, outgoing, t@, at),
{
    ChatMessage {
        id,
        peer_id: peer_id.to_owned(),
        outgoing,
        kind: MessageKind::Text(t.to_owned()),
        created_at: at,
    }
}

impl ServerState {
    /// Takes a message that came from `addr`. What comes back are the event
    /// of the peer and the message for the history.
    pub fn message(&mut self, body: &MessageBody, addr: Addr, now: i64) -> (r: Result<
        (Option<CoreEvent>, ChatMessage),
        Reply,
    >)
        requires
            old(self).wf(),
        ensures
            final(self).wf(),
            match r {
                Ok((event, msg)) => {
                    &&& message_ok(old(self)@, body.text@, body.sender.id@)
                    &&& final(self)@ == with_peer(
                        old(self)@,
                        body.sender.deep_view(),
                        addr.deep_view(),
                        now,
                    )
                    &&& event.deep_view() == discovery::up_event(
                        old(self)@.devices,
                        body.sender.deep_view(),
                        addr.deep_view(),
                        now,
                    )
                    &&& msg.deep_view() == text_message(
                        0,
                        body.sender.id@,
                        false,
                        body.text@,
                        body.sent_at,
                    )
                },
                Err(e) => {
                    &&& !message_ok(old(self)@, body.text@, body.sender.id@)
                    &&& final(self)@ == old(self)@
                    &&& e.deep_view() == (ReplyView { code: 400, text: "无效消息"@ })
                },
            },
            r matches Ok((_, msg)) ==> msg.peer_id@ == body.sender.id@ && !msg.outgoing
                && msg.created_at == body.sent_at && (msg.kind matches MessageKind::Text(t) && t@
                == body.text@),
    {
        let said = trim(body.text.as_str());
        let said_chars = text::chars_of(said.as_str());
        if said_chars.len() == 0 || same_text(body.sender.id.as_str(), self.me.id.as_str()) {
            return Err(reply(400, "无效消息"));
        }
        let event = note_peer(&mut self.registry, body.sender.clone(), addr, now);
        let msg = make_text_message(
            0,
            body.sender.id.as_str(),
            false,
            body.text.as_str(),
            body.sent_at,
        );
        Ok((event, msg))
    }
}

/// The event of a message that the history has taken under a number.
pub open spec fn stored_event(msg: ChatMessageView, id: i64) -> CoreEventView {
    CoreEventView::Message { msg: ChatMessageView { id, ..msg } }
}

pub fn message_stored(msg: ChatMessage, id: i64) -> (r: CoreEvent)
    ensures
        r.deep_view() == stored_event(msg.deep_view(), id),
{
    CoreEvent::Message {
        msg: ChatMessage {
            id,
            peer_id: msg.peer_id,
            outgoing: msg.outgoing,
            kind: msg.kind,
            created_at: msg.created_at,
        },
    }
}

/// The answer where the history, a file or a directory failed.
pub fn failed(prefix: &str, cause: &str) -> (r: Reply)
    ensures
        r.deep_view() == (ReplyView { code: 500, text: prefix@ + cause@ }),
{
    Reply { code: 500, text: cat(prefix, cause) }
}

// ---------------------------------------------------------------------------
// Requests to send files
// ---------------------------------------------------------------------------

pub open spec fn all_safe(files: Seq<FileMetaView>, sys: System) -> bool {
    forall|i: int|
        0 <= i < files.len() ==> paths::is_safe_relative((#[trigger] files[i]).rel_path, sys)
}

/// Why a request is refused at once, if it is.
pub open spec fn request_fault(v: ServerView, sender_id: Seq<char>, files: Seq<FileMetaView>) -> Option<
    Seq<char>,
> {
    if files.len() == 0 {
        Some("文件列表为空"@)
    } else if sender_id == v.me.id {
        Some("自己传自己？"@)
    } else if !all_safe(files, v.system) {
        Some("包含不安全的相对路径"@)
    } else if files.len() > MAX_REQUEST_FILES {
        Some("文件数过多"@)
    } else {
        None
    }
}

fn files_safe(files: &Vec<FileMeta>, sys: System) -> (r: bool)
    ensures
        r == all_safe(files.deep_view(), sys),
{
    let ghost all = files.deep_view();
    let mut i: usize = 0;
    while i < files.len()
        invariant
            all == files.deep_view(),
            i <= files@.len(),
            forall|k: int|
                0 <= k < i ==> paths::is_safe_relative((#[trigger] all[k]).rel_path, sys),
        decreases files@.len() - i,
    {
        assert(all[i as int] == files@[i as int].deep_view());
        if !FileMeta::is_rel_path_safe(files[i].rel_path.as_str(), sys) {
            return false;
        }
        i = i + 1;
    }
    true
}

/// The sender of a request as a device.
pub open spec fn request_peer(body_sender: DeviceInfoView, addr: AddrView, now: i64) -> DeviceView {
    DeviceView { info: body_sender, addr, online: true, last_seen_ms: now }
}

/// The state after a request was taken in under an id.
pub open spec fn with_request(
    v: ServerView,
    req_id: Seq<char>,
    sender: DeviceInfoView,
    files: Seq<FileMetaView>,
    addr: AddrView,
    now: i64,
) -> ServerView {
    ServerView {
        pending: without_request(v.pending, req_id).push(
            PendingRequestView { req_id, peer: request_peer(sender, addr, now), files },
        ),
        ..with_peer(v, sender, addr, now)
    }
}

/// What the user is told of a request: that the peer is there, where that is
/// news, and what it wants.
pub open spec fn request_events(
    v: ServerView,
    req_id: Seq<char>,
    sender: DeviceInfoView,
    files: Seq<FileMetaView>,
    addr: AddrView,
    now: i64,
) -> Seq<CoreEventView> {
    let asked = CoreEventView::IncomingRequest {
        req_id,
        peer: request_peer(sender, addr, now),
        files,
    };
    match discovery::up_event(v.devices, sender, addr, now) {
        Some(up) => seq![up, asked],
        None => seq![asked],
    }
}

impl ServerState {
    /// Takes a request in under the id `req_id`, unless it is refused.
    pub fn open_request_as(
        &mut self,
        req_id: &str,
        body: &PrepareBody,
        addr: Addr,
        now: i64,
    ) -> (r: Result<Vec<CoreEvent>, Reply>)
        requires
            old(self).wf(),
        ensures
            final(self).wf(),
            match r {
                Ok(events) => {
                    &&& request_fault(old(self)@, body.sender.id@, body.files.deep_view()) is None
                    &&& final(self)@ == with_request(
                        old(self)@,
                        req_id@,
                        body.sender.deep_view(),
                        body.files.deep_view(),
                        addr.deep_view(),
                        now,
                    )
                    &&& events.deep_view() == request_events(
                        old(self)@,
                        req_id@,
                        body.sender.deep_view(),
                        body.files.deep_view(),
                        addr.deep_view(),
                        now,
                    )
                },
                Err(e) => {
                    &&& final(self)@ == old(self)@
                    &&& e.code == 400
                    &&& request_fault(old(self)@, body.sender.id@, body.files.deep_view()) == Some(
                        e.text@,
                    )
                },
            },
    {
        if body.files.len() == 0 {
            return Err(reply(400, "文件列表为空"));
        }
        if same_text(body.sender.id.as_str(), self.me.id.as_str()) {
            return Err(reply(400, "自己传自己？"));
        }
        if !files_safe(&body.files, self.system) {
            return Err(reply(400, "包含不安全的相对路径"));
        }
        if body.files.len() > MAX_REQUEST_FILES {
            return Err(reply(400, "文件数过多"));
        }
        let up = note_peer(&mut self.registry, body.sender.clone(), addr.clone(), now);
        let peer = Device { info: body.sender.clone(), addr, online: true, last_seen_ms: now };
        let _ = self.take_request(req_id);
        let ghost rest = self@.pending;
        let asked = PendingRequest {
            req_id: req_id.to_owned(),
            peer: peer.clone(),
            files: body.files.clone(),
        };
        assert(asked.files.deep_view() =~= body.files.deep_view());
        self.pending.push(asked);
        proof {
            assert(self@.pending =~= rest.push(asked.deep_view()));
            law_removed_request_is_gone(old(self)@.pending, req_id@);
            assert(requests_unique(self@.pending)) by {
                let v = self@.pending;
                assert forall|i: int, j: int| 0 <= i < j < v.len() implies (
                #[trigger] v[i]).req_id != (#[trigger] v[j]).req_id by {
                    if j == rest.len() && v[i].req_id == req_id@ {
                        assert(request_at(rest, req_id@, i));
                    }
                }
            }
        }
        let files = body.files.clone();
        assert(files.deep_view() =~= body.files.deep_view());
        let event = CoreEvent::IncomingRequest { req_id: req_id.to_owned(), peer, files };
        let mut events: Vec<CoreEvent> = Vec::new();
        match up {
            Some(u) => {
                events.push(u);
            },
            None => {},
        }
        let ghost before = events.deep_view();
        events.push(event);
        assert(events.deep_view() =~= before.push(event.deep_view()));
        Ok(events)
    }

    /// Takes a request in under a random id, unless it is refused.
    pub fn prepare(&mut self, body: &PrepareBody, addr: Addr, now: i64) -> (r: Result<
        (String, Vec<CoreEvent>),
        Reply,
    >)
        requires
            old(self).wf(),
        ensures
            final(self).wf(),
            match r {
                Ok((req_id, events)) => {
                    &&& ids::is_uuid_text(req_id@)
                    &&& request_fault(old(self)@, body.sender.id@, body.files.deep_view()) is None
                    &&& final(self)@ == with_request(
                        old(self)@,
                        req_id@,
                        body.sender.deep_view(),
                        body.files.deep_view(),
                        addr.deep_view(),
                        now,
                    )
                    &&& events.deep_view() == request_events(
                        old(self)@,
                        req_id@,
                        body.sender.deep_view(),
                        body.files.deep_view(),
                        addr.deep_view(),
                        now,
                    )
                },
                Err(e) => {
                    &&& final(self)@ == old(self)@
                    &&& e.code == 400
                    &&& request_fault(old(self)@, body.sender.id@, body.files.deep_view()) == Some(
                        e.text@,
                    )
                },
            },
    {
        let req_id = new_id();
        match self.open_request_as(req_id.as_str(), body, addr, now) {
            Ok(events) => Ok((req_id, events)),
            Err(e) => Err(e),
        }
    }

    /// The user has decided. The decision comes back where the request still
    /// waits, and then waits no more.
    pub fn respond(
        &mut self,
        req_id: &str,
        accept: bool,
        save_dir: Option<String>,
        overwrite: bool,
    ) -> (r: Option<Decision>)
        requires
            old(self).wf(),
        ensures
            final(self).wf(),
            final(self)@ == (ServerView {
                pending: without_request(old(self)@.pending, req_id@),
                ..old(self)@
            }),
            r.deep_view() == (if find_request(old(self)@.pending, req_id@) is Some {
                Some(DecisionView { accept, save_dir: save_dir.deep_view(), overwrite })
            } else {
                None
            }),
    {
        match self.take_request(req_id) {
            Some(_) => Some(Decision { accept, save_dir, overwrite }),
            None => None,
        }
    }

    /// Nobody decided in time: the request waits no more, the user is told,
    /// and the sender is refused.
    pub fn expire(&mut self, req_id: &str) -> (r: (CoreEvent, Reply))
        requires
            old(self).wf(),
        ensures
            final(self).wf(),
            final(self)@ == (ServerView {
                pending: without_request(old(self)@.pending, req_id@),
                ..old(self)@
            }),
            r.0.deep_view() == (CoreEventView::RequestExpired { req_id: req_id@ }),
            r.1.deep_view() == (ReplyView { code: 403, text: "等待确认超时"@ }),
    {
        let _ = self.take_request(req_id);
        (
            CoreEvent::RequestExpired { req_id: req_id.to_owned() },
            reply(403, "等待确认超时"),
        )
    }

    /// Where the files of a request go, if the user wants them.
    pub fn decided(&mut self, req_id: &str, decision: Decision) -> (r: Result<String, Reply>)
        requires
            old(self).wf(),
        ensures
            final(self).wf(),
            final(self)@ == (ServerView {
                pending: without_request(old(self)@.pending, req_id@),
                ..old(self)@
            }),
            match r {
                Ok(dir) => decision.accept && dir@ == (match decision.save_dir.deep_view() {
                    Some(d) => d,
                    None => old(self)@.download_dir,
                }),
                Err(e) => !decision.accept && e.deep_view() == (ReplyView {
                    code: 403,
                    text: "对方拒绝了传输"@,
                }),
            },
    {
        let _ = self.take_request(req_id);
        if !decision.accept {
            return Err(reply(403, "对方拒绝了传输"));
        }
        match decision.save_dir {
            Some(d) => Ok(d),
            None => Ok(self.download_dir.clone()),
        }
    }
}

/// The message of a file that is being received.
pub open spec fn incoming_file(
    id: i64,
    peer_id: Seq<char>,
    token: Seq<char>,
    f: FileMetaView,
    now: i64,
) -> ChatMessageView {
    ChatMessageView {
        id,
        peer_id,
        outgoing: false,
        kind: MessageKindView::File {
            name: f.name,
            size: f.size,
            saved_path: None,
            transfer_id: Some(token),
            file_id: Some(f.id),
        },
        created_at: now,
    }
}

pub fn make_incoming_file(
    id: i64,
    peer_id: &str,
    token: &str,
    f: &FileMeta,
    now: i64,
) -> (r: ChatMessage)
    ensures
        r.deep_view() == incoming_file(id, peer_id@, token@, f.deep_view(), now),
{
    ChatMessage {
        id,
        peer_id: peer_id.to_owned(),
        outgoing: false,
        kind: MessageKind::File {
            name: f.name.clone(),
            size: f.size,
            saved_path: None,
            transfer_id: Some(token.to_owned()),
            file_id: Some(f.id.clone()),
        },
        created_at: now,
    }
}

pub open spec fn msg_pairs(files: Seq<FileMetaView>, ids: Seq<i64>) -> Seq<(Seq<char>, i64)> {
    Seq::new(files.len(), |i: int| (files[i].id, ids[i]))
}

pub open spec fn new_session(
    token: Seq<char>,
    peer: DeviceView,
    files: Seq<FileMetaView>,
    save_dir: Seq<char>,
    overwrite: bool,
    ids: Seq<i64>,
) -> RecvSessionView {
    RecvSessionView {
        token,
        peer_id: peer.info.id,
        peer_name: peer.info.name,
        files,
        save_dir,
        overwrite,
        completed: 0,
        msg_ids: msg_pairs(files, ids),
        progress_bytes: 0,
    }
}

/// The sessions after a transfer began.
pub open spec fn with_session(
    s: Seq<RecvSessionView>,
    token: Seq<char>,
    peer: DeviceView,
    files: Seq<FileMetaView>,
    save_dir: Seq<char>,
    overwrite: bool,
    ids: Seq<i64>,
) -> Seq<RecvSessionView> {
    without_session(s, token).push(new_session(token, peer, files, save_dir, overwrite, ids))
}

/// What the user sees when files begin to come in: a message for each, and
/// then the transfer.
pub open spec fn session_events(
    token: Seq<char>,
    peer: DeviceView,
    files: Seq<FileMetaView>,
    save_dir: Seq<char>,
    ids: Seq<i64>,
    now: i64,
) -> Seq<CoreEventView> {
    Seq::new(
        files.len(),
        |i: int|
            CoreEventView::Message {
                msg: incoming_file(ids[i], peer.info.id, token, files[i], now),
            },
    ).push(
        CoreEventView::TransferStarted {
            transfer_id: token,
            peer_id: peer.info.id,
            peer_name: peer.info.name,
            outgoing: false,
            files,
            sources: Seq::empty(),
            save_dir: Some(save_dir),
        },
    )
}

impl ServerState {
    /// Begins to receive. `ids` are the numbers of the messages in the
    /// history, one for each file.
    pub fn start_session(
        &mut self,
        token: &str,
        peer: &Device,
        files: Vec<FileMeta>,
        save_dir: String,
        overwrite: bool,
        ids: &Vec<i64>,
        now: i64,
    ) -> (r: Vec<CoreEvent>)
        requires
            old(self).wf(),
            files@.len() > 0,
            ids@.len() == files@.len(),
        ensures
            final(self).wf(),
            final(self)@ == (ServerView {
                sessions: with_session(
                    old(self)@.sessions,
                    token@,
                    peer.deep_view(),
                    files.deep_view(),
                    save_dir@,
                    overwrite,
                    ids@,
                ),
                ..old(self)@
            }),
            r.deep_view() == session_events(
                token@,
                peer.deep_view(),
                files.deep_view(),
                save_dir@,
                ids@,
                now,
            ),
            final(self).sessions@.len() > 0,
            final(self).sessions@.last().token@ == token@,
            final(self).sessions@.last().peer_id@ == peer.info.id@,
            final(self).sessions@.last().files@ == files@,
            final(self).sessions@.last().save_dir@ == save_dir@,
            final(self).sessions@.last().overwrite == overwrite,
            final(self).sessions@.last().completed == 0,
    {
        let ghost all = files.deep_view();
        let ghost wanted = session_events(
            token@,
            peer.deep_view(),
            files.deep_view(),
            save_dir@,
            ids@,
            now,
        );
        let mut events: Vec<CoreEvent> = Vec::new();
        let mut msg_ids: Vec<(String, i64)> = Vec::new();
        let mut i: usize = 0;
        while i < files.len()
            invariant
                all == files.deep_view(),
                ids@.len() == files@.len(),
                i <= files@.len(),
                wanted == session_events(
                    token@,
                    peer.deep_view(),
                    files.deep_view(),
                    save_dir@,
                    ids@,
                    now,
                ),
                events.deep_view() =~= wanted.take(i as int),
                msg_ids.deep_view() =~= msg_pairs(all, ids@).take(i as int),
            decreases files@.len() - i,
        {
            let f = &files[i];
            assert(all[i as int] == f.deep_view());
            let ghost events_before = events.deep_view();
            let ghost pairs_before = msg_ids.deep_view();
            let msg = make_incoming_file(ids[i], peer.info.id.as_str(), token, f, now);
            events.push(CoreEvent::Message { msg });
            assert(events.deep_view() =~= events_before.push(wanted[i as int]));
            msg_ids.push((f.id.clone(), ids[i]));
            assert(msg_ids.deep_view() =~= pairs_before.push((f.id@, ids@[i as int])));
            i = i + 1;
        }
        assert(msg_ids.deep_view() =~= msg_pairs(all, ids@));
        let files_copy = files.clone();
        assert(files_copy.deep_view() =~= all);
        let no_sources: Vec<String> = Vec::new();
        assert(no_sources.deep_view() =~= Seq::<Seq<char>>::empty());
        let started = CoreEvent::TransferStarted {
            transfer_id: token.to_owned(),
            peer_id: peer.info.id.clone(),
            peer_name: peer.info.name.clone(),
            outgoing: false,
            files: files_copy,
            sources: no_sources,
            save_dir: Some(save_dir.clone()),
        };
        let ghost before = events.deep_view();
        events.push(started);
        assert(events.deep_view() =~= before.push(started.deep_view()));
        assert(events.deep_view() =~= wanted);
        let _ = self.take_session(token);
        let ghost rest = self@.sessions;
        let session = RecvSession {
            token: token.to_owned(),
            peer_id: peer.info.id.clone(),
            peer_name: peer.info.name.clone(),
            files,
            save_dir,
            overwrite,
            completed: 0,
            msg_ids,
            progress_bytes: 0,
        };
        self.sessions.push(session);
        proof {
            law_removed_session_is_gone(old(self)@.sessions, token@);
            let v = self@.sessions;
            assert(v =~= rest.push(session.deep_view()));
            assert forall|a: int, b: int| 0 <= a < b < v.len() implies (#[trigger] v[a]).token != (
            #[trigger] v[b]).token by {
                if b == rest.len() && v[a].token == token@ {
                    assert(session_at(rest, token@, a));
                }
            }
            assert(all_open(v));
        }
        events
    }

    /// A random token for a transfer. The messages of its files are stored with
    /// it, so it is made before the session.
    pub fn new_token() -> (r: String)
        ensures
            ids::is_uuid_text(r@),
    {
        new_id()
    }
}

// ---------------------------------------------------------------------------
// Sessions that stand still
// ---------------------------------------------------------------------------

/// Watches over one session.
#[derive(Debug)]
pub struct StallMonitor {
    pub last: u64,
    pub stall: u32,
}

/// What the watch found.
#[derive(Debug, PartialEq, Eq)]
pub enum StallOutcome {
    /// The session is over.
    Stop,
    Wait,
    /// The session stood still for too long and was given up.
    Dead(CoreEvent),
}

/// How much had come in, and for how many checks nothing had.
pub open spec fn stall_step(last: u64, stall: int, bytes: u64) -> (u64, int) {
    if bytes != last {
        (bytes, 0)
    } else {
        (last, stall + 1)
    }
}

/// The watch after checks that found these counts.
pub open spec fn watched(counts: Seq<u64>) -> (u64, int)
    decreases counts.len(),
{
    if counts.len() == 0 {
        (0, 0)
    } else {
        let before = watched(counts.drop_last());
        stall_step(before.0, before.1, counts.last())
    }
}

/// The count before a check; nothing had come in before the first.
pub open spec fn count_before(counts: Seq<u64>, i: int) -> u64 {
    if i <= 0 {
        0
    } else {
        counts[i - 1]
    }
}

/// Whether a check found what the one before had found.
pub open spec fn is_idle(counts: Seq<u64>, i: int) -> bool {
    counts[i] == count_before(counts, i)
}

/// The watch counts exactly the checks since something last came in: it
/// reaches `n` where the last `n` checks all found what the one before found.
pub proof fn law_watch_counts_idle_checks(counts: Seq<u64>, n: int)
    requires
        0 <= n,
    ensures
        watched(counts).0 == count_before(counts, counts.len() as int),
        0 <= watched(counts).1 <= counts.len(),
        watched(counts).1 >= n <==> (n <= counts.len() && forall|i: int|
            counts.len() - n <= i < counts.len() ==> #[trigger] is_idle(counts, i)),
    decreases counts.len(),
{
    if counts.len() > 0 {
        let h = counts.drop_last();
        let last = counts.len() - 1;
        let m = if n > 0 {
            n - 1
        } else {
            0
        };
        law_watch_counts_idle_checks(h, m);
        assert forall|i: int| 0 <= i < h.len() implies #[trigger] is_idle(h, i) == is_idle(
            counts,
            i,
        ) by {}
        assert(is_idle(counts, last) == (counts.last() == watched(h).0));
        if n > 0 {
            if watched(counts).1 >= n {
                assert forall|i: int| counts.len() - n <= i < counts.len() implies
                    #[trigger] is_idle(counts, i) by {
                    if i < last {
                        assert(is_idle(h, i));
                    }
                }
            }
            if n <= counts.len() && forall|i: int|
                counts.len() - n <= i < counts.len() ==> #[trigger] is_idle(counts, i) {
                assert(is_idle(counts, last));
                assert forall|i: int| h.len() - m <= i < h.len() implies #[trigger] is_idle(
                    h,
                    i,
                ) by {
                    assert(is_idle(counts, i));
                }
            }
        }
    }
}

impl StallMonitor {
    pub fn new() -> (r: Self)
        ensures
            r.last == 0,
            r.stall == 0,
    {
        StallMonitor { last: 0, stall: 0 }
    }
}

/// The end of a transfer.
pub open spec fn ended(token: Seq<char>, error: Option<Seq<char>>) -> CoreEventView {
    CoreEventView::TransferFinished { transfer_id: token, error }
}

fn end_event(token: &str, reason: &str) -> (r: CoreEvent)
    ensures
        r.deep_view() == ended(token@, Some(reason@)),
{
    CoreEvent::TransferFinished {
        transfer_id: token.to_owned(),
        error: Some(reason.to_owned()),
    }
}

impl ServerState {
    /// One check of a session, five seconds after the one before.
    pub fn check_stall(&mut self, token: &str, watch: &mut StallMonitor) -> (r: StallOutcome)
        requires
            old(self).wf(),
            old(watch).stall < STALL_LIMIT,
        ensures
            final(self).wf(),
            match find_session(old(self)@.sessions, token@) {
                None => r is Stop && final(self)@ == old(self)@ && *final(watch) == *old(watch),
                Some(i) => {
                    let next = stall_step(
                        old(watch).last,
                        old(watch).stall as int,
                        old(self)@.sessions[i].progress_bytes,
                    );
                    &&& final(watch).last == next.0
                    &&& final(watch).stall == next.1
                    &&& if next.1 >= STALL_LIMIT {
                        &&& r matches StallOutcome::Dead(e)
                        &&& e.deep_view() == ended(token@, Some("传输超时中断"@))
                        &&& final(self)@ == (ServerView {
                            sessions: without_session(old(self)@.sessions, token@),
                            ..old(self)@
                        })
                    } else {
                        r is Wait && final(self)@ == old(self)@
                    }
                },
            },
    {
        match self.session_index(token) {
            None => StallOutcome::Stop,
            Some(i) => {
                assert(self@.sessions[i as int] == self.sessions@[i as int].deep_view());
                let bytes = self.sessions[i].progress_bytes;
                if bytes != watch.last {
                    watch.last = bytes;
                    watch.stall = 0;
                    return StallOutcome::Wait;
                }
                watch.stall = watch.stall + 1;
                if watch.stall >= STALL_LIMIT {
                    let _ = self.take_session(token);
                    StallOutcome::Dead(end_event(token, "传输超时中断"))
                } else {
                    StallOutcome::Wait
                }
            },
        }
    }
}

// ---------------------------------------------------------------------------
// Where a file is saved
// ---------------------------------------------------------------------------

/// Whether `occupied` was asked of a path and said `there`.
pub open spec fn told<F: Fn(&str) -> bool>(occupied: F, p: Seq<char>, there: bool) -> bool {
    exists|s: &str| s@ == p && #[trigger] call_ensures(occupied, (s,), there)
}

/// The path itself for 0, then the numbered ones.
pub open spec fn candidate(p: Seq<char>, fallback: Seq<char>, k: nat, sys: System) -> Seq<char> {
    if k == 0 {
        p
    } else {
        paths::numbered_path(p, fallback, k, sys)
    }
}

/// The first of the candidates up to number `last` of which `occupied` says
/// that nothing is there.
pub fn free_path<F: Fn(&str) -> bool>(
    p: &str,
    fallback: &str,
    last: u64,
    sys: System,
    occupied: F,
) -> (r: Option<String>)
    requires
        last < u64::MAX,
        forall|s: &str| call_requires(occupied, (s,)),
    ensures
        match r {
            Some(q) => exists|k: nat|
                #![trigger candidate(p@, fallback@, k, sys)]
                k <= last && q@ == candidate(p@, fallback@, k, sys) && told(occupied, q@, false)
                    && forall|j: nat|
                    j < k ==> told(occupied, #[trigger] candidate(p@, fallback@, j, sys), true),
            None => forall|j: nat|
                j <= last ==> told(occupied, #[trigger] candidate(p@, fallback@, j, sys), true),
        },
{
    let mut k: u64 = 0;
    while k <= last
        invariant
            last < u64::MAX,
            k <= last + 1,
            forall|s: &str| call_requires(occupied, (s,)),
            forall|j: nat|
                j < k ==> told(occupied, #[trigger] candidate(p@, fallback@, j, sys), true),
        decreases last + 1 - k,
    {
        let q = if k == 0 {
            p.to_owned()
        } else {
            number_path(p, fallback, k, sys)
        };
        assert(q@ == candidate(p@, fallback@, k as nat, sys));
        let there = occupied(q.as_str());
        assert(told(occupied, q@, there));
        if !there {
            return Some(q);
        }
        k = k + 1;
    }
    None
}

/// Where a file of a request goes first.
pub open spec fn wanted_path(save_dir: Seq<char>, rel: Seq<char>, sys: System) -> Seq<char> {
    paths::joined_path(save_dir, rel, sys)
}

/// Where a received file is saved: below the directory, and under a numbered
/// name where the name is taken and must not be replaced.
pub fn target_path<F: Fn(&str) -> bool>(
    save_dir: &str,
    meta: &FileMeta,
    overwrite: bool,
    sys: System,
    occupied: F,
) -> (r: Result<String, String>)
    requires
        forall|s: &str| call_requires(occupied, (s,)),
    ensures
        ({
            let p = wanted_path(save_dir@, meta.rel_path@, sys);
            match r {
                Ok(q) => {
                    &&& paths::lies_in(p, save_dir@, sys)
                    &&& overwrite ==> q@ == p
                    &&& !overwrite ==> exists|k: nat|
                        #![trigger candidate(p, "file"@, k, sys)]
                        k <= 9999 && q@ == candidate(p, "file"@, k, sys)
                            && told(occupied, q@, false) && forall|j: nat|
                            j < k ==> told(occupied, #[trigger] candidate(p, "file"@, j, sys), true)
                },
                Err(e) => {
                    ||| !paths::lies_in(p, save_dir@, sys) && e@ == "路径逃逸: "@ + meta.rel_path@
                    ||| {
                        &&& paths::lies_in(p, save_dir@, sys)
                        &&& !overwrite
                        &&& e@ == "同名文件过多: "@ + meta.rel_path@
                        &&& forall|j: nat|
                            j <= 9999 ==> told(
                                occupied,
                                #[trigger] candidate(p, "file"@, j, sys),
                                true,
                            )
                    }
                },
            }
        }),
{
    let p = join_path(save_dir, meta.rel_path.as_str(), sys);
    let ghost wanted = wanted_path(save_dir@, meta.rel_path@, sys);
    assert(p@ == wanted);
    if !starts_with(p.as_str(), save_dir, sys) {
        return Err(cat("路径逃逸: ", meta.rel_path.as_str()));
    }
    if overwrite {
        return Ok(p);
    }
    match free_path(p.as_str(), "file", 9999, sys, occupied) {
        Some(q) => {
            assert(exists|k: nat|
                #![trigger candidate(wanted, "file"@, k, sys)]
                k <= 9999 && q@ == candidate(wanted, "file"@, k, sys) && told(occupied, q@, false)
                    && forall|j: nat|
                    j < k ==> told(occupied, #[trigger] candidate(wanted, "file"@, j, sys), true));
            Ok(q)
        },
        None => Err(cat("同名文件过多: ", meta.rel_path.as_str())),
    }
}

/// A file with a safe relative path that names a file is saved below the
/// directory that was chosen, whatever is there already. Left out are directories
/// like `\\server`, which name no share.
pub proof fn law_saved_below(save_dir: Seq<char>, rel: Seq<char>, k: nat, sys: System)
    requires
        paths::is_safe_relative(rel, sys),
        paths::has_share(wanted_path(save_dir, rel, sys), sys) ==> paths::has_share(save_dir, sys),
        paths::components(wanted_path(save_dir, rel, sys), sys).len() > paths::components(
            save_dir,
            sys,
        ).len(),
        paths::name_of(paths::components(wanted_path(save_dir, rel, sys), sys)) is Some,
    ensures
        paths::lies_in(candidate(wanted_path(save_dir, rel, sys), "file"@, k, sys), save_dir, sys),
{
    let p = wanted_path(save_dir, rel, sys);
    paths::law_safe_relative_stays_below(save_dir, rel, sys);
    assert(paths::lies_in(p, save_dir, sys)) by {
        let c = paths::components(p, sys);
        let d = paths::components(save_dir, sys);
        assert(c.subrange(0, d.len() as int) =~= c.take(d.len() as int));
    }
    if k > 0 {
        paths::law_numbered_stays_below(save_dir, p, "file"@, k, sys);
    }
}

/// The path of every request that is not refused lies below the directory, so
/// none is answered with an escape. Left out are directories like `\\server`,
/// which name no share.
pub proof fn law_safe_request_never_escapes(save_dir: Seq<char>, rel: Seq<char>, sys: System)
    requires
        paths::is_safe_relative(rel, sys),
        paths::has_share(wanted_path(save_dir, rel, sys), sys) ==> paths::has_share(save_dir, sys),
    ensures
        paths::lies_in(wanted_path(save_dir, rel, sys), save_dir, sys),
{
    paths::law_safe_relative_stays_below(save_dir, rel, sys);
    let c = paths::components(wanted_path(save_dir, rel, sys), sys);
    let d = paths::components(save_dir, sys);
    assert(c.subrange(0, d.len() as int) =~= c.take(d.len() as int));
}

// ---------------------------------------------------------------------------
// Uploads
// ---------------------------------------------------------------------------

pub open spec fn file_of(files: Seq<FileMetaView>, id: Seq<char>) -> Option<FileMetaView>
    decreases files.len(),
{
    if files.len() == 0 {
        None
    } else if files[0].id == id {
        Some(files[0])
    } else {
        file_of(files.skip(1), id)
    }
}

pub open spec fn msg_of(pairs: Seq<(Seq<char>, i64)>, id: Seq<char>) -> Option<i64>
    decreases pairs.len(),
{
    if pairs.len() == 0 {
        None
    } else if pairs.last().0 == id {
        Some(pairs.last().1)
    } else {
        msg_of(pairs.drop_last(), id)
    }
}

/// A file that is about to come in.
#[derive(Debug, PartialEq, Eq)]
pub struct UploadJob {
    pub meta: FileMeta,
    pub save_dir: String,
    pub overwrite: bool,
    /// Its message in the history.
    pub msg_id: Option<i64>,
}

/// [`UploadJob`] as the contracts speak of it.
#[verifier::ext_equal]
pub struct UploadJobView {
    pub meta: FileMetaView,
    pub save_dir: Seq<char>,
    pub overwrite: bool,
    pub msg_id: Option<i64>,
}

impl DeepView for UploadJob {
    type V = UploadJobView;

    open spec fn deep_view(&self) -> UploadJobView {
        UploadJobView {
            meta: self.meta.deep_view(),
            save_dir: self.save_dir.deep_view(),
            overwrite: self.overwrite.deep_view(),
            msg_id: self.msg_id.deep_view(),
        }
    }
}

impl Clone for UploadJob {
    fn clone(&self) -> (r: Self)
        ensures
            r.deep_view() == self.deep_view(),
    {
        let r = UploadJob {
            meta: self.meta.clone(),
            save_dir: self.save_dir.clone(),
            overwrite: self.overwrite,
            msg_id: self.msg_id.clone(),
        };
        r
    }
}

/// Whether a file may be uploaded now, and what is known of it.
pub open spec fn upload_job(
    s: Seq<RecvSessionView>,
    token: Seq<char>,
    file_id: Seq<char>,
    cancelled: bool,
) -> Result<UploadJobView, ReplyView> {
    match find_session(s, token) {
        None => Err(ReplyView { code: 404, text: "会话不存在或已结束"@ }),
        Some(i) => if cancelled {
            Err(ReplyView { code: 409, text: "传输已取消"@ })
        } else {
            match file_of(s[i].files, file_id) {
                None => Err(ReplyView { code: 404, text: "文件 ID 无效"@ }),
                Some(meta) => Ok(
                    UploadJobView {
                        meta,
                        save_dir: s[i].save_dir,
                        overwrite: s[i].overwrite,
                        msg_id: msg_of(s[i].msg_ids, file_id),
                    },
                ),
            }
        },
    }
}

fn find_file(files: &Vec<FileMeta>, id: &str) -> (r: Option<FileMeta>)
    ensures
        r.deep_view() == file_of(files.deep_view(), id@),
{
    let ghost all = files.deep_view();
    let mut i: usize = 0;
    assert(all.skip(0) =~= all);
    while i < files.len()
        invariant
            all == files.deep_view(),
            i <= files@.len(),
            file_of(all, id@) == file_of(all.skip(i as int), id@),
        decreases files@.len() - i,
    {
        assert(all[i as int] == files@[i as int].deep_view());
        assert(all.skip(i as int)[0] == all[i as int]);
        assert(all.skip(i as int).skip(1) =~= all.skip(i + 1));
        if same_text(files[i].id.as_str(), id) {
            return Some(files[i].clone());
        }
        i = i + 1;
    }
    None
}

fn find_msg(pairs: &Vec<(String, i64)>, id: &str) -> (r: Option<i64>)
    ensures
        r == msg_of(pairs.deep_view(), id@),
{
    let ghost all = pairs.deep_view();
    let mut i: usize = pairs.len();
    assert(all.take(i as int) =~= all);
    while i > 0
        invariant
            all == pairs.deep_view(),
            i <= pairs@.len(),
            msg_of(all, id@) == msg_of(all.take(i as int), id@),
        decreases i,
    {
        let e = &pairs[i - 1];
        assert(all[i - 1] == e.deep_view());
        assert(all.take(i as int).drop_last() =~= all.take(i - 1));
        assert(all.take(i as int).last() == all[i - 1]);
        if same_text(e.0.as_str(), id) {
            return Some(e.1);
        }
        i = i - 1;
    }
    None
}

impl ServerState {
    /// Whether a file may come in now. `cancelled` tells whether the transfer
    /// has been called off meanwhile.
    pub fn begin_upload(&self, token: &str, file_id: &str, cancelled: bool) -> (r: Result<
        UploadJob,
        Reply,
    >)
        requires
            self.wf(),
        ensures
            match r {
                Ok(job) => upload_job(self@.sessions, token@, file_id@, cancelled) == Ok::<
                    _,
                    ReplyView,
                >(job.deep_view()),
                Err(e) => upload_job(self@.sessions, token@, file_id@, cancelled) == Err::<
                    UploadJobView,
                    _,
                >(e.deep_view()),
            },
            r matches Ok(job) ==> job.meta.id@ == file_id@ && exists|i: int|
                0 <= i < self.sessions@.len() && (#[trigger] self.sessions@[i]).token@ == token@
                    && job.save_dir@ == self.sessions@[i].save_dir@ && job.overwrite
                    == self.sessions@[i].overwrite,
    {
        match self.session_index(token) {
            None => Err(reply(404, "会话不存在或已结束")),
            Some(i) => {
                let s = &self.sessions[i];
                proof {
                    assert(self@.sessions[i as int] == s.deep_view());
                    assert(session_at(self@.sessions, token@, i as int));
                    assert(self.sessions@[i as int].token@ == token@);
                    law_announced_file_is_found(s.files.deep_view(), file_id@);
                }
                if cancelled {
                    return Err(reply(409, "传输已取消"));
                }
                match find_file(&s.files, file_id) {
                    None => Err(reply(404, "文件 ID 无效")),
                    Some(meta) => Ok(
                        UploadJob {
                            meta,
                            save_dir: s.save_dir.clone(),
                            overwrite: s.overwrite,
                            msg_id: find_msg(&s.msg_ids, file_id),
                        },
                    ),
                }
            },
        }
    }
}

/// A file that is coming in.
#[derive(Debug)]
pub struct Receiving {
    pub transfer_id: String,
    pub file_id: String,
    pub written: u64,
    pub size: u64,
    pub throttle: ProgressThrottle,
}

/// What the stream of a file brought.
#[derive(Debug)]
pub enum Chunk {
    Data { len: u64 },
    Broken { cause: String },
}

/// Why an upload fails before its end.
#[derive(Debug, PartialEq, Eq)]
pub enum Fault {
    /// The transfer was called off.
    Cancelled,
    /// The sender broke off.
    Broken { cause: String },
    /// More came than was announced.
    TooLong,
    /// What came could not be written.
    Disk { cause: String },
}

/// [`Fault`] as the contracts speak of it.
#[verifier::ext_equal]
pub enum FaultView {
    Cancelled,
    Broken { cause: Seq<char> },
    TooLong,
    Disk { cause: Seq<char> },
}

impl DeepView for Fault {
    type V = FaultView;

    open spec fn deep_view(&self) -> FaultView {
        match self {
            Fault::Cancelled => FaultView::Cancelled,
            Fault::Broken { cause } => FaultView::Broken { cause: cause.deep_view() },
            Fault::TooLong => FaultView::TooLong,
            Fault::Disk { cause } => FaultView::Disk { cause: cause.deep_view() },
        }
    }
}

/// What the sender is told of a fault.
pub open spec fn fault_text(f: FaultView) -> Seq<char> {
    match f {
        FaultView::Cancelled => "已取消"@,
        FaultView::Broken { cause } => "网络中断: "@ + cause,
        FaultView::TooLong => "数据超出声明大小"@,
        FaultView::Disk { cause } => "写盘失败: "@ + cause,
    }
}

impl Fault {
    pub fn text(&self) -> (r: String)
        ensures
            r@ == fault_text(self.deep_view()),
    {
        match self {
            Fault::Cancelled => "已取消".to_owned(),
            Fault::Broken { cause } => cat("网络中断: ", cause.as_str()),
            Fault::TooLong => "数据超出声明大小".to_owned(),
            Fault::Disk { cause } => cat("写盘失败: ", cause.as_str()),
        }
    }
}

/// Why a chunk is not taken, if it is not.
pub open spec fn chunk_fault(written: u64, size: u64, chunk: Chunk, cancelled: bool) -> Option<
    FaultView,
> {
    if cancelled {
        Some(FaultView::Cancelled)
    } else {
        match chunk {
            Chunk::Broken { cause } => Some(FaultView::Broken { cause: cause@ }),
            Chunk::Data { len } => if written + len > size {
                Some(FaultView::TooLong)
            } else {
                None
            },
        }
    }
}

pub open spec fn progress_event(
    transfer_id: Seq<char>,
    file_id: Seq<char>,
    transferred: u64,
    total: u64,
    done: bool,
    path: Option<Seq<char>>,
) -> CoreEventView {
    CoreEventView::FileProgress { transfer_id, file_id, transferred, total, done, path }
}

impl Receiving {
    /// Never more is written than was announced.
    pub open spec fn wf(&self) -> bool {
        self.written <= self.size
    }

    pub fn new(token: &str, meta: &FileMeta) -> (r: Self)
        ensures
            r.wf(),
            r.transfer_id@ == token@,
            r.file_id@ == meta.id@,
            r.written == 0,
            r.size == meta.size,
            r.throttle.last_ms == 0,
            r.throttle.interval_ms == 150,
    {
        Receiving {
            transfer_id: token.to_owned(),
            file_id: meta.id.clone(),
            written: 0,
            size: meta.size,
            throttle: ProgressThrottle::new(150),
        }
    }

    /// Whether what came is written; else why not.
    pub fn judge(&self, chunk: &Chunk, cancelled: bool) -> (r: Option<Fault>)
        requires
            self.wf(),
        ensures
            r.deep_view() == chunk_fault(self.written, self.size, *chunk, cancelled),
    {
        if cancelled {
            return Some(Fault::Cancelled);
        }
        match chunk {
            Chunk::Broken { cause } => Some(Fault::Broken { cause: cause.clone() }),
            Chunk::Data { len } => if *len > self.size - self.written {
                Some(Fault::TooLong)
            } else {
                None
            },
        }
    }

    /// Counts a chunk that was written at `now`; progress is reported when it
    /// is due.
    pub fn wrote(&mut self, len: u64, now: i64) -> (r: Option<CoreEvent>)
        requires
            old(self).wf(),
            old(self).written + len <= old(self).size,
        ensures
            final(self).wf(),
            final(self).written == old(self).written + len,
            final(self).size == old(self).size,
            final(self).transfer_id@ == old(self).transfer_id@,
            final(self).file_id@ == old(self).file_id@,
            final(self).throttle.interval_ms == old(self).throttle.interval_ms,
            final(self).throttle.last_ms == (if proto::is_due(
                old(self).throttle.last_ms,
                old(self).throttle.interval_ms,
                now,
            ) {
                now
            } else {
                old(self).throttle.last_ms
            }),
            r.deep_view() == (if proto::is_due(
                old(self).throttle.last_ms,
                old(self).throttle.interval_ms,
                now,
            ) {
                Some(
                    progress_event(
                        old(self).transfer_id@,
                        old(self).file_id@,
                        final(self).written,
                        old(self).size,
                        false,
                        None,
                    ),
                )
            } else {
                None
            }),
    {
        self.written = self.written + len;
        if self.throttle.allow_at(now) {
            Some(
                CoreEvent::FileProgress {
                    transfer_id: self.transfer_id.clone(),
                    file_id: self.file_id.clone(),
                    transferred: self.written,
                    total: self.size,
                    done: false,
                    path: None,
                },
            )
        } else {
            None
        }
    }

    /// Whether the file is complete at the end of its stream.
    pub fn finished(&self) -> (r: Result<(), Reply>)
        ensures
            match r {
                Ok(()) => self.written == self.size,
                Err(e) => self.written != self.size && e.deep_view() == (ReplyView {
                    code: 400,
                    text: "大小不符：收到 "@ + text::decimal(self.written as nat)
                        + " / 声明 "@ + text::decimal(self.size as nat),
                }),
            },
    {
        if self.written != self.size {
            let w = to_decimal(self.written);
            let s = to_decimal(self.size);
            let mut t = cat("大小不符：收到 ", w.as_str());
            t.append(" / 声明 ");
            t.append(s.as_str());
            return Err(Reply { code: 400, text: t });
        }
        Ok(())
    }

    /// The report of a file that was saved.
    pub fn saved(&self, path: &str) -> (r: CoreEvent)
        ensures
            r.deep_view() == progress_event(
                self.transfer_id@,
                self.file_id@,
                self.written,
                self.size,
                true,
                Some(path@),
            ),
    {
        CoreEvent::FileProgress {
            transfer_id: self.transfer_id.clone(),
            file_id: self.file_id.clone(),
            transferred: self.written,
            total: self.size,
            done: true,
            path: Some(path.to_owned()),
        }
    }
}

/// The sessions after something came in for one of them.
pub open spec fn with_progress(s: Seq<RecvSessionView>, token: Seq<char>, len: u64) -> Seq<
    RecvSessionView,
> {
    match find_session(s, token) {
        Some(i) => s.update(
            i,
            RecvSessionView {
                progress_bytes: ((s[i].progress_bytes + len) % 0x1_0000_0000_0000_0000) as u64,
                ..s[i]
            },
        ),
        None => s,
    }
}

/// Whether a fault ends the whole transfer: where the sender is gone or the
/// transfer was called off, nothing more will come.
pub open spec fn ends_transfer(f: FaultView) -> bool {
    f is Cancelled || f is Broken
}

/// The sessions after an upload failed.
pub open spec fn after_fault(s: Seq<RecvSessionView>, token: Seq<char>, f: FaultView) -> Seq<
    RecvSessionView,
> {
    if ends_transfer(f) {
        without_session(s, token)
    } else {
        s
    }
}

/// The sessions after a file was saved: the last one ends its session.
pub open spec fn after_saved(s: Seq<RecvSessionView>, token: Seq<char>) -> Seq<RecvSessionView> {
    match find_session(s, token) {
        Some(i) => if s[i].completed + 1 >= s[i].files.len() {
            s.remove(i)
        } else {
            s.update(i, RecvSessionView { completed: (s[i].completed + 1) as usize, ..s[i] })
        },
        None => s,
    }
}

proof fn lemma_update_session(s: Seq<RecvSessionView>, i: int, x: RecvSessionView)
    requires
        tokens_unique(s),
        all_open(s),
        0 <= i < s.len(),
        x.token == s[i].token,
        x.completed < x.files.len(),
    ensures
        tokens_unique(s.update(i, x)),
        all_open(s.update(i, x)),
{
    let u = s.update(i, x);
    assert forall|a: int, b: int| 0 <= a < b < u.len() implies (#[trigger] u[a]).token != (
    #[trigger] u[b]).token by {
        assert(s[a].token != s[b].token);
    }
    assert forall|a: int| 0 <= a < u.len() implies (#[trigger] u[a]).completed
        < u[a].files.len() by {
        if a != i {
            assert(u[a] == s[a]);
        }
    }
}

impl ServerState {
    /// Notes that something came in.
    pub fn add_progress(&mut self, token: &str, len: u64)
        requires
            old(self).wf(),
        ensures
            final(self).wf(),
            final(self)@ == (ServerView {
                sessions: with_progress(old(self)@.sessions, token@, len),
                ..old(self)@
            }),
    {
        let ghost all = self@.sessions;
        match self.session_index(token) {
            Some(i) => {
                assert(all[i as int] == self.sessions@[i as int].deep_view());
                let sum: u128 = self.sessions[i].progress_bytes as u128 + len as u128;
                let bytes: u64 = (sum % 0x1_0000_0000_0000_0000) as u64;
                let mut s = self.sessions.remove(i);
                s.progress_bytes = bytes;
                let ghost x = s.deep_view();
                self.sessions.insert(i, s);
                assert(self@.sessions =~= all.update(i as int, x));
                proof {
                    lemma_update_session(all, i as int, x);
                }
            },
            None => {},
        }
    }

    /// An upload failed. Where the sender broke off or the transfer was called
    /// off, the transfer is over and the user is told.
    pub fn abort_upload(&mut self, token: &str, fault: &Fault) -> (r: (Option<CoreEvent>, Reply))
        requires
            old(self).wf(),
        ensures
            final(self).wf(),
            final(self)@ == (ServerView {
                sessions: after_fault(old(self)@.sessions, token@, fault.deep_view()),
                ..old(self)@
            }),
            r.0.deep_view() == (if ends_transfer(fault.deep_view()) && find_session(
                old(self)@.sessions,
                token@,
            ) is Some {
                Some(ended(token@, Some("传输中断"@)))
            } else {
                None
            }),
            r.1.deep_view() == (ReplyView { code: 409, text: fault_text(fault.deep_view()) }),
    {
        let over = match fault {
            Fault::Cancelled | Fault::Broken { .. } => true,
            Fault::TooLong | Fault::Disk { .. } => false,
        };
        let event = if over {
            self.cancel_with(token, "传输中断")
        } else {
            None
        };
        (event, Reply { code: 409, text: fault.text() })
    }

    /// A file was saved. With the last one the transfer is over.
    pub fn complete_file(&mut self, token: &str) -> (r: Option<CoreEvent>)
        requires
            old(self).wf(),
        ensures
            final(self).wf(),
            final(self)@ == (ServerView {
                sessions: after_saved(old(self)@.sessions, token@),
                ..old(self)@
            }),
            r.deep_view() == (match find_session(old(self)@.sessions, token@) {
                Some(i) => if old(self)@.sessions[i].completed + 1
                    >= old(self)@.sessions[i].files.len() {
                    Some(ended(token@, None))
                } else {
                    None
                },
                None => None,
            }),
    {
        let ghost all = self@.sessions;
        match self.session_index(token) {
            Some(i) => {
                assert(all[i as int] == self.sessions@[i as int].deep_view());
                let total: usize = self.sessions[i].files.len();
                assert(all[i as int].files.len() == total);
                let done: usize = self.sessions[i].completed;
                if total - done <= 1 {
                    let _ = self.take_session(token);
                    Some(
                        CoreEvent::TransferFinished { transfer_id: token.to_owned(), error: None },
                    )
                } else {
                    let mut s = self.sessions.remove(i);
                    s.completed = done + 1;
                    let ghost x = s.deep_view();
                    self.sessions.insert(i, s);
                    assert(self@.sessions =~= all.update(i as int, x));
                    proof {
                        lemma_update_session(all, i as int, x);
                    }
                    None
                }
            },
            None => None,
        }
    }

    fn cancel_with(&mut self, token: &str, reason: &str) -> (r: Option<CoreEvent>)
        requires
            old(self).wf(),
        ensures
            final(self).wf(),
            final(self)@ == (ServerView {
                sessions: without_session(old(self)@.sessions, token@),
                ..old(self)@
            }),
            r.deep_view() == (if find_session(old(self)@.sessions, token@) is Some {
                Some(ended(token@, Some(reason@)))
            } else {
                None
            }),
    {
        match self.take_session(token) {
            Some(_) => Some(end_event(token, reason)),
            None => None,
        }
    }

    /// The sender has called the transfer off.
    pub fn cancel_transfer(&mut self, token: &str) -> (r: Option<CoreEvent>)
        requires
            old(self).wf(),
        ensures
            final(self).wf(),
            final(self)@ == (ServerView {
                sessions: without_session(old(self)@.sessions, token@),
                ..old(self)@
            }),
            r.deep_view() == (if find_session(old(self)@.sessions, token@) is Some {
                Some(ended(token@, Some("对方取消了传输"@)))
            } else {
                None
            }),
    {
        self.cancel_with(token, "对方取消了传输")
    }

    /// The user has called the transfer off.
    pub fn cancel_local(&mut self, token: &str) -> (r: Option<CoreEvent>)
        requires
            old(self).wf(),
        ensures
            final(self).wf(),
            final(self)@ == (ServerView {
                sessions: without_session(old(self)@.sessions, token@),
                ..old(self)@
            }),
            r.deep_view() == (if find_session(old(self)@.sessions, token@) is Some {
                Some(ended(token@, Some("已取消"@)))
            } else {
                None
            }),
    {
        self.cancel_with(token, "已取消")
    }

    /// Calls everything off. The tokens come back.
    pub fn cancel_all(&mut self) -> (r: Vec<String>)
        requires
            old(self).wf(),
        ensures
            final(self).wf(),
            final(self)@ == (ServerView { sessions: Seq::empty(), ..old(self)@ }),
            r.deep_view() == Seq::new(
                old(self)@.sessions.len(),
                |i: int| old(self)@.sessions[i].token,
            ),
    {
        let ghost all = self@.sessions;
        let ghost tokens = Seq::new(all.len(), |i: int| all[i].token);
        let mut out: Vec<String> = Vec::new();
        let mut i: usize = 0;
        while i < self.sessions.len()
            invariant
                all == self@.sessions,
                *self == *old(self),
                tokens == Seq::new(all.len(), |i: int| all[i].token),
                i <= self.sessions@.len(),
                out.deep_view() =~= tokens.take(i as int),
            decreases self.sessions@.len() - i,
        {
            assert(all[i as int] == self.sessions@[i as int].deep_view());
            let ghost before = out.deep_view();
            out.push(self.sessions[i].token.clone());
            assert(out.deep_view() =~= before.push(tokens[i as int]));
            i = i + 1;
        }
        assert(out.deep_view() =~= tokens);
        self.sessions = Vec::new();
        assert(self@.sessions =~= Seq::<RecvSessionView>::empty());
        out
    }
}

// ---------------------------------------------------------------------------
// Laws of transfers
// ---------------------------------------------------------------------------

/// The sessions after `n` files of one transfer were saved.
pub open spec fn after_saves(s: Seq<RecvSessionView>, token: Seq<char>, n: int) -> Seq<
    RecvSessionView,
>
    decreases n,
{
    if n <= 0 {
        s
    } else {
        after_saved(after_saves(s, token, n - 1), token)
    }
}

/// A transfer is over with its last file, and not before: while files are
/// missing the session is there and counts them.
pub proof fn law_transfer_ends_with_its_last_file(s: Seq<RecvSessionView>, token: Seq<char>, n: int)
    requires
        tokens_unique(s),
        all_open(s),
        find_session(s, token) is Some,
        s[find_session(s, token)->Some_0].completed == 0,
        0 <= n <= s[find_session(s, token)->Some_0].files.len() <= usize::MAX,
    ensures
        ({
            let i = find_session(s, token)->Some_0;
            let r = after_saves(s, token, n);
            &&& tokens_unique(r)
            &&& all_open(r)
            &&& if n < s[i].files.len() {
                &&& find_session(r, token) == Some(i)
                &&& r == s.update(i, RecvSessionView { completed: n as usize, ..s[i] })
            } else {
                find_session(r, token) is None
            }
        }),
    decreases n,
{
    let i = find_session(s, token)->Some_0;
    assert(session_at(s, token, i));
    if n == 0 {
        assert(s.update(i, RecvSessionView { completed: 0, ..s[i] }) =~= s);
    } else {
        law_transfer_ends_with_its_last_file(s, token, n - 1);
        let q = after_saves(s, token, n - 1);
        let x = RecvSessionView { completed: n as usize, ..s[i] };
        if n < s[i].files.len() {
            lemma_update_session(s, i, x);
            let r = after_saves(s, token, n);
            assert(r =~= s.update(i, x));
            assert(session_at(r, token, i));
            lemma_session_at(r, token, i);
        } else {
            law_removed_session_is_gone(q, token);
        }
    }
}

/// A transfer does not hang when its sender breaks off or it is called off:
/// whatever had come in by then, what is seen next ends it.
pub proof fn law_broken_upload_ends_the_transfer(
    s: Seq<RecvSessionView>,
    token: Seq<char>,
    written: u64,
    size: u64,
    chunk: Chunk,
    cancelled: bool,
)
    requires
        tokens_unique(s),
        cancelled || chunk is Broken,
    ensures
        chunk_fault(written, size, chunk, cancelled) matches Some(f) && find_session(
            after_fault(s, token, f),
            token,
        ) is None,
{
    law_removed_session_is_gone(s, token);
}

/// Once a transfer is over, whether by its last file or by being called off,
/// no upload is taken for it any more.
pub proof fn law_no_upload_after_the_end(
    s: Seq<RecvSessionView>,
    token: Seq<char>,
    file_id: Seq<char>,
    cancelled: bool,
)
    requires
        tokens_unique(s),
    ensures
        upload_job(without_session(s, token), token, file_id, cancelled) == Err::<UploadJobView, _>(
            ReplyView { code: 404, text: "会话不存在或已结束"@ },
        ),
        without_session(without_session(s, token), token) == without_session(s, token),
{
    law_removed_session_is_gone(s, token);
}

/// A file is found exactly where one with the id was announced.
pub proof fn law_announced_file_is_found(files: Seq<FileMetaView>, id: Seq<char>)
    ensures
        file_of(files, id) is Some <==> exists|i: int|
            0 <= i < files.len() && (#[trigger] files[i]).id == id,
        file_of(files, id) is Some ==> files.contains(file_of(files, id)->Some_0) && file_of(
            files,
            id,
        )->Some_0.id == id,
    decreases files.len(),
{
    if files.len() > 0 {
        let t = files.skip(1);
        law_announced_file_is_found(t, id);
        if files[0].id == id {
            assert(files.contains(files[0]));
        } else {
            if exists|i: int| 0 <= i < t.len() && (#[trigger] t[i]).id == id {
                let i = choose|i: int| 0 <= i < t.len() && (#[trigger] t[i]).id == id;
                assert(files[i + 1].id == id);
                let f = file_of(t, id)->Some_0;
                let m = choose|m: int| 0 <= m < t.len() && t[m] == f;
                assert(files[m + 1] == f);
            }
            if exists|i: int| 0 <= i < files.len() && (#[trigger] files[i]).id == id {
                let i = choose|i: int| 0 <= i < files.len() && (#[trigger] files[i]).id == id;
                assert(t[i - 1].id == id);
            }
        }
    }
}

/// No two files have the same id.
pub open spec fn file_ids_unique(files: Seq<FileMetaView>) -> bool {
    forall|i: int, j: int|
        0 <= i < j < files.len() ==> (#[trigger] files[i]).id != (#[trigger] files[j]).id
}

/// The message of a file in the history is the one that was made for it.
proof fn lemma_msg_of_pairs(files: Seq<FileMetaView>, ids: Seq<i64>, n: int, i: int)
    requires
        file_ids_unique(files),
        ids.len() == files.len(),
        0 <= i < n <= files.len(),
    ensures
        msg_of(msg_pairs(files, ids).take(n), files[i].id) == Some(ids[i]),
    decreases n,
{
    let p = msg_pairs(files, ids).take(n);
    assert(p.last() == (files[n - 1].id, ids[n - 1]));
    assert(p.drop_last() =~= msg_pairs(files, ids).take(n - 1));
    if i < n - 1 {
        assert(files[i].id != files[n - 1].id);
        lemma_msg_of_pairs(files, ids, n - 1, i);
    }
}

/// What the user decided reaches every upload of the transfer: each file that
/// was announced may come in, is saved in the directory that was chosen,
/// replaces files of the same name exactly where the user said so, and goes
/// by what was announced of it and by its message in the history.
pub proof fn law_decision_reaches_every_upload(
    s: Seq<RecvSessionView>,
    token: Seq<char>,
    peer: DeviceView,
    files: Seq<FileMetaView>,
    save_dir: Seq<char>,
    overwrite: bool,
    ids: Seq<i64>,
    i: int,
)
    requires
        tokens_unique(s),
        file_ids_unique(files),
        ids.len() == files.len(),
        0 <= i < files.len(),
    ensures
        ({
            let after = with_session(s, token, peer, files, save_dir, overwrite, ids);
            &&& upload_job(after, token, files[i].id, false) is Ok
            &&& upload_job(after, token, files[i].id, false)->Ok_0.save_dir == save_dir
            &&& upload_job(after, token, files[i].id, false)->Ok_0.overwrite == overwrite
            &&& upload_job(after, token, files[i].id, false)->Ok_0.meta == files[i]
            &&& upload_job(after, token, files[i].id, false)->Ok_0.msg_id == Some(ids[i])
        }),
{
    let after = with_session(s, token, peer, files, save_dir, overwrite, ids);
    lemma_session_began(s, token, peer, files, save_dir, overwrite, ids);
    law_announced_file_is_found(files, files[i].id);
    assert(files[i].id == files[i].id);
    let f = file_of(files, files[i].id)->Some_0;
    let m = choose|m: int| 0 <= m < files.len() && files[m] == f;
    if m < i {
        assert(files[m].id != files[i].id);
    } else if i < m {
        assert(files[i].id != files[m].id);
    }
    lemma_msg_of_pairs(files, ids, files.len() as int, i);
    assert(msg_pairs(files, ids).take(files.len() as int) =~= msg_pairs(files, ids));
}

proof fn lemma_session_began(
    s: Seq<RecvSessionView>,
    token: Seq<char>,
    peer: DeviceView,
    files: Seq<FileMetaView>,
    save_dir: Seq<char>,
    overwrite: bool,
    ids: Seq<i64>,
)
    requires
        tokens_unique(s),
    ensures
        ({
            let after = with_session(s, token, peer, files, save_dir, overwrite, ids);
            &&& tokens_unique(after)
            &&& find_session(after, token) == Some(after.len() - 1)
            &&& after.last() == new_session(token, peer, files, save_dir, overwrite, ids)
        }),
{
    let rest = without_session(s, token);
    let after = with_session(s, token, peer, files, save_dir, overwrite, ids);
    law_removed_session_is_gone(s, token);
    assert forall|a: int, b: int| 0 <= a < b < after.len() implies (#[trigger] after[a]).token != (
    #[trigger] after[b]).token by {
        if b == rest.len() && after[a].token == token {
            assert(session_at(rest, token, a));
        }
    }
    assert(session_at(after, token, after.len() - 1));
    lemma_session_at(after, token, after.len() - 1);
}

/// Nothing that was not announced is taken, nothing at all once the transfer
/// was called off, and nothing for a transfer that is not there.
pub proof fn law_only_announced_files_are_taken(
    s: Seq<RecvSessionView>,
    token: Seq<char>,
    file_id: Seq<char>,
    cancelled: bool,
)
    requires
        tokens_unique(s),
    ensures
        upload_job(s, token, file_id, cancelled) is Ok ==> !cancelled && exists|i: int|
            0 <= i < s.len() && (#[trigger] s[i]).token == token && s[i].files.contains(
                upload_job(s, token, file_id, cancelled)->Ok_0.meta,
            ) && s[i].save_dir == upload_job(s, token, file_id, cancelled)->Ok_0.save_dir
                && s[i].overwrite == upload_job(s, token, file_id, cancelled)->Ok_0.overwrite,
        upload_job(s, token, file_id, cancelled) is Ok ==> upload_job(
            s,
            token,
            file_id,
            cancelled,
        )->Ok_0.meta.id == file_id,
        (forall|i: int| 0 <= i < s.len() ==> (#[trigger] s[i]).token != token) ==> upload_job(
            s,
            token,
            file_id,
            cancelled,
        ) is Err && upload_job(s, token, file_id, cancelled)->Err_0.code == 404,
        cancelled && (exists|i: int| 0 <= i < s.len() && (#[trigger] s[i]).token == token)
            ==> upload_job(s, token, file_id, cancelled) is Err && upload_job(
            s,
            token,
            file_id,
            cancelled,
        )->Err_0.code == 409,
{
    match find_session(s, token) {
        Some(i) => {
            assert(session_at(s, token, i));
            law_announced_file_is_found(s[i].files, file_id);
        },
        None => {
            if exists|i: int| 0 <= i < s.len() && (#[trigger] s[i]).token == token {
                let i = choose|i: int| 0 <= i < s.len() && (#[trigger] s[i]).token == token;
                assert(session_at(s, token, i));
            }
        },
    }
}

/// Beginning, failing or counting one transfer does not change what another
/// may upload, nor where that goes.
pub proof fn law_transfers_do_not_disturb_each_other(
    s: Seq<RecvSessionView>,
    token: Seq<char>,
    peer: DeviceView,
    files: Seq<FileMetaView>,
    save_dir: Seq<char>,
    overwrite: bool,
    ids: Seq<i64>,
    len: u64,
    f: FaultView,
    other: Seq<char>,
    file_id: Seq<char>,
    cancelled: bool,
)
    requires
        tokens_unique(s),
        other != token,
    ensures
        upload_job(
            with_session(s, token, peer, files, save_dir, overwrite, ids),
            other,
            file_id,
            cancelled,
        ) == upload_job(s, other, file_id, cancelled),
        upload_job(without_session(s, token), other, file_id, cancelled) == upload_job(
            s,
            other,
            file_id,
            cancelled,
        ),
        upload_job(after_fault(s, token, f), other, file_id, cancelled) == upload_job(
            s,
            other,
            file_id,
            cancelled,
        ),
        upload_job(after_saved(s, token), other, file_id, cancelled) == upload_job(
            s,
            other,
            file_id,
            cancelled,
        ),
        upload_job(with_progress(s, token, len), other, file_id, cancelled) == upload_job(
            s,
            other,
            file_id,
            cancelled,
        ),
{
    let rest = without_session(s, token);
    let began = with_session(s, token, peer, files, save_dir, overwrite, ids);
    law_removed_session_is_gone(s, token);
    lemma_session_began(s, token, peer, files, save_dir, overwrite, ids);
    lemma_same_found(s, rest, other);
    assert forall|i: int| 0 <= i < s.len() && (#[trigger] s[i]).token
        == other implies began.contains(s[i]) by {
        let k = choose|k: int| 0 <= k < rest.len() && rest[k] == s[i];
        assert(began[k] == s[i]);
    }
    lemma_same_found(s, began, other);
    let saved = after_saved(s, token);
    let moved = with_progress(s, token, len);
    match find_session(s, token) {
        Some(i) => {
            assert(session_at(s, token, i));
            assert(moved =~= s.update(i, moved[i]));
            lemma_update_tokens(s, i, moved[i]);
            lemma_same_found(s, moved, other);
            if s[i].completed + 1 < s[i].files.len() {
                lemma_update_tokens(s, i, saved[i]);
                lemma_same_found(s, saved, other);
            } else {
                assert(saved =~= rest);
            }
        },
        None => {},
    }
}

proof fn lemma_update_tokens(s: Seq<RecvSessionView>, i: int, x: RecvSessionView)
    requires
        tokens_unique(s),
        0 <= i < s.len(),
        x.token == s[i].token,
    ensures
        tokens_unique(s.update(i, x)),
        forall|k: int| 0 <= k < s.len() && k != i ==> s.update(i, x).contains(#[trigger] s[k]),
{
    let u = s.update(i, x);
    assert forall|a: int, b: int| 0 <= a < b < u.len() implies (#[trigger] u[a]).token != (
    #[trigger] u[b]).token by {
        assert(s[a].token != s[b].token);
    }
    assert forall|k: int| 0 <= k < s.len() && k != i implies u.contains(#[trigger] s[k]) by {
        assert(u[k] == s[k]);
    }
}

/// Where the session of `other` is the same before and after, so is the job.
proof fn lemma_same_found(s: Seq<RecvSessionView>, r: Seq<RecvSessionView>, other: Seq<char>)
    requires
        tokens_unique(s),
        tokens_unique(r),
        forall|i: int|
            0 <= i < s.len() && (#[trigger] s[i]).token == other ==> r.contains(s[i]),
        forall|i: int|
            0 <= i < r.len() && (#[trigger] r[i]).token == other ==> s.contains(r[i]),
    ensures
        find_session(s, other) is Some <==> find_session(r, other) is Some,
        find_session(s, other) is Some ==> s[find_session(s, other)->Some_0] == r[find_session(
            r,
            other,
        )->Some_0],
{
    match find_session(s, other) {
        Some(i) => {
            assert(session_at(s, other, i));
            let k = choose|k: int| 0 <= k < r.len() && r[k] == s[i];
            assert(session_at(r, other, k));
            lemma_session_at(r, other, k);
        },
        None => {
            if find_session(r, other) is Some {
                let k = find_session(r, other)->Some_0;
                assert(session_at(r, other, k));
                let i = choose|i: int| 0 <= i < s.len() && s[i] == r[k];
                assert(session_at(s, other, i));
            }
        },
    }
}

/// What comes in for a transfer is added to what had come in for it, and
/// nothing else of the transfer changes.
pub proof fn law_progress_adds_up(s: Seq<RecvSessionView>, token: Seq<char>, len: u64, i: int)
    requires
        tokens_unique(s),
        0 <= i < s.len(),
    ensures
        with_progress(s, token, len).len() == s.len(),
        s[i].token != token ==> with_progress(s, token, len)[i] == s[i],
        s[i].token == token && s[i].progress_bytes + len <= u64::MAX ==> with_progress(
            s,
            token,
            len,
        )[i] == (RecvSessionView {
            progress_bytes: (s[i].progress_bytes + len) as u64,
            ..s[i]
        }),
{
    if s[i].token == token {
        assert(session_at(s, token, i));
        lemma_session_at(s, token, i);
        let sum = s[i].progress_bytes + len;
        if sum <= u64::MAX {
            assert(sum % 0x1_0000_0000_0000_0000 == sum) by (nonlinear_arith)
                requires
                    0 <= sum <= u64::MAX,
            ;
        }
    } else if find_session(s, token) is Some {
        assert(session_at(s, token, find_session(s, token)->Some_0));
    }
}

/// A file that is too long or cannot be written fails alone: its transfer goes
/// on as it was.
pub proof fn law_other_faults_spare_the_transfer(
    s: Seq<RecvSessionView>,
    token: Seq<char>,
    cause: Seq<char>,
)
    ensures
        after_fault(s, token, FaultView::TooLong) == s,
        after_fault(s, token, FaultView::Disk { cause }) == s,
{
}

/// What came is taken exactly where nobody has called off, nothing broke, and
/// no more came than was announced.
pub proof fn law_no_more_than_announced(written: u64, size: u64, len: u64)
    ensures
        chunk_fault(written, size, Chunk::Data { len }, false) is None <==> written + len <= size,
        chunk_fault(written, size, Chunk::Data { len }, true) == Some(FaultView::Cancelled),
{
}

/// A request waits exactly where it holds between one file and the limit, all
/// with safe paths, and comes from somebody else.
pub proof fn law_requests_that_wait(v: ServerView, sender_id: Seq<char>, files: Seq<FileMetaView>)
    ensures
        request_fault(v, sender_id, files) is None <==> {
            &&& 0 < files.len() <= 4096
            &&& sender_id != v.me.id
            &&& forall|i: int|
                0 <= i < files.len() ==> paths::is_safe_relative(
                    (#[trigger] files[i]).rel_path,
                    v.system,
                )
        },
{
}

/// A request waits as it was made, the user is told of just that, and the
/// requests that waited before wait on.
pub proof fn law_request_waits_as_it_was_made(
    v: ServerView,
    req_id: Seq<char>,
    sender: DeviceInfoView,
    files: Seq<FileMetaView>,
    addr: AddrView,
    now: i64,
)
    requires
        requests_unique(v.pending),
    ensures
        ({
            let after = with_request(v, req_id, sender, files, addr, now);
            let told = request_events(v, req_id, sender, files, addr, now);
            let at = find_request(after.pending, req_id);
            &&& at is Some
            &&& after.pending[at->Some_0].req_id == req_id
            &&& after.pending[at->Some_0].files == files
            &&& after.pending[at->Some_0].peer.info == sender
            &&& after.pending[at->Some_0].peer.addr == addr
            &&& after.pending[at->Some_0].peer.online
            &&& told.last() == (CoreEventView::IncomingRequest {
                req_id,
                peer: after.pending[at->Some_0].peer,
                files,
            })
            &&& forall|i: int|
                0 <= i < v.pending.len() && (#[trigger] v.pending[i]).req_id != req_id
                    ==> after.pending.contains(v.pending[i])
            &&& after.sessions == v.sessions
            &&& after.offers == v.offers
            &&& after.me == v.me
            &&& after.download_dir == v.download_dir
        }),
{
    law_removed_request_is_gone(v.pending, req_id);
    let rest = without_request(v.pending, req_id);
    let after = with_request(v, req_id, sender, files, addr, now).pending;
    assert forall|i: int, j: int| 0 <= i < j < after.len() implies (#[trigger] after[i]).req_id != (
    #[trigger] after[j]).req_id by {
        if j == rest.len() && after[i].req_id == req_id {
            assert(request_at(rest, req_id, i));
        }
    }
    assert(request_at(after, req_id, rest.len() as int));
    lemma_request_at(after, req_id, rest.len() as int);
    assert forall|i: int|
        0 <= i < v.pending.len() && (#[trigger] v.pending[i]).req_id
            != req_id implies after.contains(v.pending[i]) by {
        let k = choose|k: int| 0 <= k < rest.len() && rest[k] == v.pending[i];
        assert(after[k] == v.pending[i]);
    }
}

/// What the user sees when files begin to come in fits what is received: one
/// message for each file, in the conversation with the sender, under the
/// number that its upload knows, and the transfer with all its files, under
/// the token and with the directory of the session.
pub proof fn law_receiving_is_shown(
    s: Seq<RecvSessionView>,
    token: Seq<char>,
    peer: DeviceView,
    files: Seq<FileMetaView>,
    save_dir: Seq<char>,
    overwrite: bool,
    ids: Seq<i64>,
    now: i64,
    i: int,
)
    requires
        tokens_unique(s),
        file_ids_unique(files),
        ids.len() == files.len(),
        0 <= i < files.len(),
    ensures
        ({
            let told = session_events(token, peer, files, save_dir, ids, now);
            let after = with_session(s, token, peer, files, save_dir, overwrite, ids);
            &&& told.len() == files.len() + 1
            &&& told[i] is Message
            &&& told[i]->msg.peer_id == peer.info.id
            &&& !told[i]->msg.outgoing
            &&& told[i]->msg.created_at == now
            &&& told[i]->msg.kind == (MessageKindView::File {
                name: files[i].name,
                size: files[i].size,
                saved_path: None,
                transfer_id: Some(token),
                file_id: Some(files[i].id),
            })
            &&& upload_job(after, token, files[i].id, false)->Ok_0.msg_id == Some(told[i]->msg.id)
            &&& told.last() == (CoreEventView::TransferStarted {
                transfer_id: token,
                peer_id: peer.info.id,
                peer_name: peer.info.name,
                outgoing: false,
                files,
                sources: Seq::empty(),
                save_dir: Some(save_dir),
            })
        }),
{
    law_decision_reaches_every_upload(s, token, peer, files, save_dir, overwrite, ids, i);
}

/// The history changes of a message only its number.
pub proof fn law_history_only_numbers(msg: ChatMessageView, id: i64)
    ensures
        stored_event(msg, id) is Message,
        stored_event(msg, id)->msg.id == id,
        stored_event(msg, id)->msg.peer_id == msg.peer_id,
        stored_event(msg, id)->msg.outgoing == msg.outgoing,
        stored_event(msg, id)->msg.kind == msg.kind,
        stored_event(msg, id)->msg.created_at == msg.created_at,
{
}

/// A message is taken exactly where it says something and comes from another
/// device.
pub proof fn law_messages_that_are_taken(
    v: ServerView,
    body_text: Seq<char>,
    sender_id: Seq<char>,
)
    ensures
        message_ok(v, body_text, sender_id) <==> sender_id != v.me.id && (exists|i: int|
            0 <= i < body_text.len() && !text::is_space(#[trigger] body_text[i])),
{
    let _ = text::law_trimming_takes_only_space(body_text);
}

/// A text message holds what was said, to whom or by whom, and when.
pub proof fn law_text_message_is_what_was_said(
    id: i64,
    peer_id: Seq<char>,
    outgoing: bool,
    said: Seq<char>,
    at: i64,
)
    ensures
        ({
            let m = text_message(id, peer_id, outgoing, said, at);
            &&& m.id == id
            &&& m.peer_id == peer_id
            &&& m.outgoing == outgoing
            &&& m.kind == MessageKindView::Text(said)
            &&& m.created_at == at
        }),
{
}

/// A received file goes, by the names of its path, just below the directory
/// that was chosen. Left out are directories like `\\server`, which name no
/// share.
pub proof fn law_file_goes_where_it_was_announced(
    save_dir: Seq<char>,
    segs: Seq<Seq<char>>,
    sys: System,
)
    requires
        segs.len() > 0,
        forall|i: int| 0 <= i < segs.len() ==> paths::is_name(#[trigger] segs[i], sys),
        !paths::drive_in_front(text::joined(segs, '/')),
        paths::has_share(wanted_path(save_dir, text::joined(segs, '/'), sys), sys)
            ==> paths::has_share(save_dir, sys),
    ensures
        paths::components(wanted_path(save_dir, text::joined(segs, '/'), sys), sys)
            == paths::components(save_dir, sys) + Seq::new(
            segs.len(),
            |i: int| paths::Comp::Name(segs[i]),
        ),
{
    paths::law_names_are_appended(save_dir, segs, sys);
}

/// The places that are tried for a file are the wanted one and then others
/// beside it, no two the same.
pub proof fn law_places_that_are_tried_differ(
    p: Seq<char>,
    fallback: Seq<char>,
    a: nat,
    b: nat,
    sys: System,
)
    requires
        paths::name_of(paths::components(p, sys)) is Some,
        0 < a,
        0 < b,
        a != b,
    ensures
        candidate(p, fallback, 0, sys) == p,
        candidate(p, fallback, a, sys) != candidate(p, fallback, b, sys),
        paths::components(candidate(p, fallback, a, sys), sys).drop_last() == paths::components(
            p,
            sys,
        ).drop_last(),
{
    let n = paths::name_of(paths::components(p, sys))->Some_0;
    let c = paths::components(p, sys);
    paths::law_numbered_path_is_beside(p, fallback, a, sys);
    paths::law_numbered_path_is_beside(p, fallback, b, sys);
    paths::law_numbered_names_differ(n, a, b);
    let x = c.drop_last().push(paths::Comp::Name(paths::numbered(n, a)));
    let y = c.drop_last().push(paths::Comp::Name(paths::numbered(n, b)));
    assert(x.drop_last() =~= c.drop_last());
    assert(x.last() != y.last());
}

/// The user is told of the end of a transfer exactly when it ends: with the
/// last file the session goes, and not before.
pub proof fn law_session_goes_with_the_last_file(
    s: Seq<RecvSessionView>,
    token: Seq<char>,
    i: int,
)
    requires
        tokens_unique(s),
        all_open(s),
        0 <= i < s.len(),
        s[i].token == token,
    ensures
        s[i].completed + 1 == s[i].files.len() ==> find_session(
            after_saved(s, token),
            token,
        ) is None,
        s[i].completed + 1 < s[i].files.len() <= usize::MAX ==> after_saved(s, token) == s.update(
            i,
            RecvSessionView { completed: (s[i].completed + 1) as usize, ..s[i] },
        ),
{
    assert(session_at(s, token, i));
    lemma_session_at(s, token, i);
    law_removed_session_is_gone(s, token);
}

/// A transfer begins with nothing received, from the device that sends it,
/// under its token.
pub proof fn law_transfer_begins_empty(
    s: Seq<RecvSessionView>,
    token: Seq<char>,
    peer: DeviceView,
    files: Seq<FileMetaView>,
    save_dir: Seq<char>,
    overwrite: bool,
    ids: Seq<i64>,
)
    requires
        tokens_unique(s),
    ensures
        ({
            let after = with_session(s, token, peer, files, save_dir, overwrite, ids);
            let at = find_session(after, token);
            &&& tokens_unique(after)
            &&& at is Some
            &&& after[at->Some_0].token == token
            &&& after[at->Some_0].peer_id == peer.info.id
            &&& after[at->Some_0].peer_name == peer.info.name
            &&& after[at->Some_0].files == files
            &&& after[at->Some_0].completed == 0
            &&& after[at->Some_0].progress_bytes == 0
        }),
{
    lemma_session_began(s, token, peer, files, save_dir, overwrite, ids);
}

/// The sender of a file that broke off is told why, whatever had come before.
pub proof fn law_fault_is_what_happened(written: u64, size: u64, chunk: Chunk, cause: Seq<char>)
    ensures
        chunk matches Chunk::Broken { cause: c } ==> chunk_fault(written, size, chunk, false)
            == Some(FaultView::Broken { cause: c@ }),
        chunk matches Chunk::Data { len } ==> (written + len > size ==> chunk_fault(
            written,
            size,
            chunk,
            false,
        ) == Some(FaultView::TooLong)),
        chunk_fault(written, size, chunk, true) == Some(FaultView::Cancelled),
        fault_text(FaultView::Broken { cause }) == "网络中断: "@ + cause,
        fault_text(FaultView::Disk { cause }) == "写盘失败: "@ + cause,
{
}

} // verus!

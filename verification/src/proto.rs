//! The transfer protocol: what devices tell each other, what the core tells
//! the user interface, and what the user interface asks of the core.

use vstd::prelude::*;
use vstd::string::*;

use crate::paths;
use crate::paths::{safe_relative, System};
use crate::text;
use crate::text::{cat, same_text, to_decimal};

verus! {

pub const PROTOCOL_VERSION: u32 = 1;

/// The peer id of the browser conversation.
pub const WEB_PEER_ID: &'static str = "__web__";

/// The multicast group that devices announce themselves to.
pub const DISCOVERY_GROUP: [u8; 4] = [239, 192, 71, 82];

pub const DISCOVERY_PORT: u16 = 17878;

pub const DEFAULT_HTTP_PORT: u16 = 17878;

/// A device that has not been heard of for this long is offline.
pub const DEVICE_TIMEOUT_SECS: u64 = 15;

// ---------------------------------------------------------------------------
// Addresses
// ---------------------------------------------------------------------------

/// An IP address: the four octets, or the text of a version 6 address in
/// its canonical form.
#[derive(Debug, PartialEq, Eq)]
pub enum Addr {
    V4(u8, u8, u8, u8),
    V6(String),
}

/// [`Addr`] as the contracts speak of it.
#[verifier::ext_equal]
pub enum AddrView {
    V4(u8, u8, u8, u8),
    V6(Seq<char>),
}

impl DeepView for Addr {
    type V = AddrView;

    open spec fn deep_view(&self) -> AddrView {
        match self {
            Addr::V4(a, b, c, d) => AddrView::V4(a.deep_view(), b.deep_view(), c.deep_view(), d.deep_view()),
            Addr::V6(a) => AddrView::V6(a.deep_view()),
        }
    }
}

impl Clone for Addr {
    fn clone(&self) -> (r: Self)
        ensures
            r.deep_view() == self.deep_view(),
    {
        match self {
            Addr::V4(a, b, c, d) => Addr::V4(*a, *b, *c, *d),
            Addr::V6(a) => Addr::V6(a.clone()),
        }
    }
}


impl Addr {
    pub fn same(&self, other: &Addr) -> (r: bool)
        ensures
            r == (self.deep_view() == other.deep_view()),
    {
        match (self, other) {
            (Addr::V4(a, b, c, d), Addr::V4(e, f, g, h)) => *a == *e && *b == *f && *c == *g && *d
                == *h,
            (Addr::V6(s), Addr::V6(t)) => same_text(s.as_str(), t.as_str()),
            _ => false,
        }
    }

    pub fn text(&self) -> (r: String)
        ensures
            r@ == addr_text(self.deep_view()),
    {
        match self {
            Addr::V4(a, b, c, d) => {
                let mut out = to_decimal(*a as u64);
                out.append(".");
                let t = to_decimal(*b as u64);
                out.append(t.as_str());
                out.append(".");
                let t = to_decimal(*c as u64);
                out.append(t.as_str());
                out.append(".");
                let t = to_decimal(*d as u64);
                out.append(t.as_str());
                out
            },
            Addr::V6(s) => s.clone(),
        }
    }
}

/// How an address is written.
pub open spec fn addr_text(a: AddrView) -> Seq<char> {
    match a {
        AddrView::V4(a, b, c, d) => text::decimal(a as nat) + "."@ + text::decimal(b as nat)
            + "."@ + text::decimal(c as nat) + "."@ + text::decimal(d as nat),
        AddrView::V6(s) => s,
    }
}

// ---------------------------------------------------------------------------
// Devices
// ---------------------------------------------------------------------------

/// What a device says of itself, in every announcement and request.
#[derive(Debug, PartialEq, Eq)]
pub struct DeviceInfo {
    pub id: String,
    pub name: String,
    /// `windows`, `mac` or `linux`.
    pub plat: String,
    /// The port of its HTTP service.
    pub port: u16,
    /// The protocol version it speaks.
    pub v: u32,
}

/// [`DeviceInfo`] as the contracts speak of it.
#[verifier::ext_equal]
pub struct DeviceInfoView {
    pub id: Seq<char>,
    pub name: Seq<char>,
    pub plat: Seq<char>,
    pub port: u16,
    pub v: u32,
}

impl DeepView for DeviceInfo {
    type V = DeviceInfoView;

    open spec fn deep_view(&self) -> DeviceInfoView {
        DeviceInfoView {
            id: self.id.deep_view(),
            name: self.name.deep_view(),
            plat: self.plat.deep_view(),
            port: self.port.deep_view(),
            v: self.v.deep_view(),
        }
    }
}

impl Clone for DeviceInfo {
    fn clone(&self) -> (r: Self)
        ensures
            r.deep_view() == self.deep_view(),
    {
        let r = DeviceInfo {
            id: self.id.clone(),
            name: self.name.clone(),
            plat: self.plat.clone(),
            port: self.port,
            v: self.v,
        };
        r
    }
}

impl DeviceInfo {
    pub fn same(&self, other: &DeviceInfo) -> (r: bool)
        ensures
            r == (self.deep_view() == other.deep_view()),
    {
        same_text(self.id.as_str(), other.id.as_str()) && same_text(
            self.name.as_str(),
            other.name.as_str(),
        ) && same_text(self.plat.as_str(), other.plat.as_str()) && self.port == other.port
            && self.v == other.v
    }
}

/// A datagram of the discovery protocol.
#[derive(Debug, PartialEq, Eq)]
pub enum DiscoveryPacket {
    Announce { info: DeviceInfo },
    Bye { id: String },
}

/// [`DiscoveryPacket`] as the contracts speak of it.
#[verifier::ext_equal]
pub enum DiscoveryPacketView {
    Announce { info: DeviceInfoView },
    Bye { id: Seq<char> },
}

impl DeepView for DiscoveryPacket {
    type V = DiscoveryPacketView;

    open spec fn deep_view(&self) -> DiscoveryPacketView {
        match self {
            DiscoveryPacket::Announce { info } => DiscoveryPacketView::Announce { info: info.deep_view() },
            DiscoveryPacket::Bye { id } => DiscoveryPacketView::Bye { id: id.deep_view() },
        }
    }
}

impl Clone for DiscoveryPacket {
    fn clone(&self) -> (r: Self)
        ensures
            r.deep_view() == self.deep_view(),
    {
        match self {
            DiscoveryPacket::Announce { info } => DiscoveryPacket::Announce { info: info.clone() },
            DiscoveryPacket::Bye { id } => DiscoveryPacket::Bye { id: id.clone() },
        }
    }
}

/// A device as the user sees it.
#[derive(Debug, PartialEq, Eq)]
pub struct Device {
    pub info: DeviceInfo,
    pub addr: Addr,
    pub online: bool,
    pub last_seen_ms: i64,
}

/// [`Device`] as the contracts speak of it.
#[verifier::ext_equal]
pub struct DeviceView {
    pub info: DeviceInfoView,
    pub addr: AddrView,
    pub online: bool,
    pub last_seen_ms: i64,
}

impl DeepView for Device {
    type V = DeviceView;

    open spec fn deep_view(&self) -> DeviceView {
        DeviceView {
            info: self.info.deep_view(),
            addr: self.addr.deep_view(),
            online: self.online.deep_view(),
            last_seen_ms: self.last_seen_ms.deep_view(),
        }
    }
}

impl Clone for Device {
    fn clone(&self) -> (r: Self)
        ensures
            r.deep_view() == self.deep_view(),
    {
        let r = Device {
            info: self.info.clone(),
            addr: self.addr.clone(),
            online: self.online,
            last_seen_ms: self.last_seen_ms,
        };
        r
    }
}

/// Where the HTTP service of a device answers.
pub open spec fn base_url(addr: AddrView, port: u16) -> Seq<char> {
    "http://"@ + addr_text(addr) + ":"@ + text::decimal(port as nat)
}

impl Device {
    pub fn http_base(&self) -> (r: String)
        ensures
            r@ == base_url(self.addr.deep_view(), self.info.port),
    {
        let addr = self.addr.text();
        let port = to_decimal(self.info.port as u64);
        let mut out = cat("http://", addr.as_str());
        out.append(":");
        out.append(port.as_str());
        out
    }
}

// ---------------------------------------------------------------------------
// Request and response bodies
// ---------------------------------------------------------------------------

/// A text message on the wire.
#[derive(Debug, PartialEq, Eq)]
pub struct MessageBody {
    pub sender: DeviceInfo,
    pub text: String,
    pub sent_at: i64,
}

/// [`MessageBody`] as the contracts speak of it.
#[verifier::ext_equal]
pub struct MessageBodyView {
    pub sender: DeviceInfoView,
    pub text: Seq<char>,
    pub sent_at: i64,
}

impl DeepView for MessageBody {
    type V = MessageBodyView;

    open spec fn deep_view(&self) -> MessageBodyView {
        MessageBodyView {
            sender: self.sender.deep_view(),
            text: self.text.deep_view(),
            sent_at: self.sent_at.deep_view(),
        }
    }
}

impl Clone for MessageBody {
    fn clone(&self) -> (r: Self)
        ensures
            r.deep_view() == self.deep_view(),
    {
        let r = MessageBody {
            sender: self.sender.clone(),
            text: self.text.clone(),
            sent_at: self.sent_at,
        };
        r
    }
}

/// A file that is offered.
#[derive(Debug, PartialEq, Eq)]
pub struct FileMeta {
    pub id: String,
    /// The name that is shown.
    pub name: String,
    /// Where it goes below the directory that it is saved to.
    pub rel_path: String,
    pub size: u64,
}

/// [`FileMeta`] as the contracts speak of it.
#[verifier::ext_equal]
pub struct FileMetaView {
    pub id: Seq<char>,
    pub name: Seq<char>,
    pub rel_path: Seq<char>,
    pub size: u64,
}

impl DeepView for FileMeta {
    type V = FileMetaView;

    open spec fn deep_view(&self) -> FileMetaView {
        FileMetaView {
            id: self.id.deep_view(),
            name: self.name.deep_view(),
            rel_path: self.rel_path.deep_view(),
            size: self.size.deep_view(),
        }
    }
}

impl Clone for FileMeta {
    fn clone(&self) -> (r: Self)
        ensures
            r.deep_view() == self.deep_view(),
    {
        let r = FileMeta {
            id: self.id.clone(),
            name: self.name.clone(),
            rel_path: self.rel_path.clone(),
            size: self.size,
        };
        r
    }
}

impl FileMeta {
    /// Only a path that stays below the directory is safe: no absolute path,
    /// no leading slash, no `..`, no drive.
    pub fn is_rel_path_safe(rel_path: &str, sys: System) -> (r: bool)
        ensures
            r == paths::is_safe_relative(rel_path@, sys),
    {
        safe_relative(rel_path, sys)
    }
}

/// A request to send files.
#[derive(Debug, PartialEq, Eq)]
pub struct PrepareBody {
    pub sender: DeviceInfo,
    pub files: Vec<FileMeta>,
}

/// [`PrepareBody`] as the contracts speak of it.
#[verifier::ext_equal]
pub struct PrepareBodyView {
    pub sender: DeviceInfoView,
    pub files: Seq<FileMetaView>,
}

impl DeepView for PrepareBody {
    type V = PrepareBodyView;

    open spec fn deep_view(&self) -> PrepareBodyView {
        PrepareBodyView {
            sender: self.sender.deep_view(),
            files: self.files.deep_view(),
        }
    }
}

impl Clone for PrepareBody {
    fn clone(&self) -> (r: Self)
        ensures
            r.deep_view() == self.deep_view(),
    {
        let r = PrepareBody {
            sender: self.sender.clone(),
            files: self.files.clone(),
        };
        assert(r.files.deep_view() =~= self.files.deep_view());
        r
    }
}

/// The answer to an accepted request.
#[derive(Debug, PartialEq, Eq)]
pub struct PrepareOk {
    pub token: String,
}

/// [`PrepareOk`] as the contracts speak of it.
#[verifier::ext_equal]
pub struct PrepareOkView {
    pub token: Seq<char>,
}

impl DeepView for PrepareOk {
    type V = PrepareOkView;

    open spec fn deep_view(&self) -> PrepareOkView {
        PrepareOkView {
            token: self.token.deep_view(),
        }
    }
}

impl Clone for PrepareOk {
    fn clone(&self) -> (r: Self)
        ensures
            r.deep_view() == self.deep_view(),
    {
        let r = PrepareOk {
            token: self.token.clone(),
        };
        r
    }
}

// ---------------------------------------------------------------------------
// Chat messages
// ---------------------------------------------------------------------------

/// What a chat message holds.
#[derive(Debug, PartialEq, Eq)]
pub enum MessageKind {
    Text(String),
    /// `saved_path` is known once a file is on disk; `file_id` is the id that
    /// the sender gave the file.
    File { name: String, size: u64, saved_path: Option<String>, transfer_id: Option<String>, file_id: Option<String> },
}

/// [`MessageKind`] as the contracts speak of it.
#[verifier::ext_equal]
pub enum MessageKindView {
    Text(Seq<char>),
    File { name: Seq<char>, size: u64, saved_path: Option<Seq<char>>, transfer_id: Option<Seq<char>>, file_id: Option<Seq<char>> },
}

impl DeepView for MessageKind {
    type V = MessageKindView;

    open spec fn deep_view(&self) -> MessageKindView {
        match self {
            MessageKind::Text(a) => MessageKindView::Text(a.deep_view()),
            MessageKind::File { name, size, saved_path, transfer_id, file_id } => MessageKindView::File { name: name.deep_view(), size: size.deep_view(), saved_path: saved_path.deep_view(), transfer_id: transfer_id.deep_view(), file_id: file_id.deep_view() },
        }
    }
}

impl Clone for MessageKind {
    fn clone(&self) -> (r: Self)
        ensures
            r.deep_view() == self.deep_view(),
    {
        match self {
            MessageKind::Text(a) => MessageKind::Text(a.clone()),
            MessageKind::File { name, size, saved_path, transfer_id, file_id } => MessageKind::File { name: name.clone(), size: *size, saved_path: saved_path.clone(), transfer_id: transfer_id.clone(), file_id: file_id.clone() },
        }
    }
}

/// A message of a conversation.
#[derive(Debug, PartialEq, Eq)]
pub struct ChatMessage {
    pub id: i64,
    pub peer_id: String,
    /// Whether this device sent it.
    pub outgoing: bool,
    pub kind: MessageKind,
    pub created_at: i64,
}

/// [`ChatMessage`] as the contracts speak of it.
#[verifier::ext_equal]
pub struct ChatMessageView {
    pub id: i64,
    pub peer_id: Seq<char>,
    pub outgoing: bool,
    pub kind: MessageKindView,
    pub created_at: i64,
}

impl DeepView for ChatMessage {
    type V = ChatMessageView;

    open spec fn deep_view(&self) -> ChatMessageView {
        ChatMessageView {
            id: self.id.deep_view(),
            peer_id: self.peer_id.deep_view(),
            outgoing: self.outgoing.deep_view(),
            kind: self.kind.deep_view(),
            created_at: self.created_at.deep_view(),
        }
    }
}

impl Clone for ChatMessage {
    fn clone(&self) -> (r: Self)
        ensures
            r.deep_view() == self.deep_view(),
    {
        let r = ChatMessage {
            id: self.id,
            peer_id: self.peer_id.clone(),
            outgoing: self.outgoing,
            kind: self.kind.clone(),
            created_at: self.created_at,
        };
        r
    }
}

// ---------------------------------------------------------------------------
// Events and commands
// ---------------------------------------------------------------------------

/// What the core tells the user interface.
#[derive(Debug, PartialEq, Eq)]
pub enum CoreEvent {
    DeviceUp(Device),
    DeviceDown { id: String, name: String },
    /// A text or file message, received or sent, that is in the history.
    Message { msg: ChatMessage },
    /// Somebody wants to send files; the user decides.
    IncomingRequest { req_id: String, peer: Device, files: Vec<FileMeta> },
    /// Nobody decided in time.
    RequestExpired { req_id: String },
    /// `sources` are the local files of a sender, one for each of `files`.
    TransferStarted { transfer_id: String, peer_id: String, peer_name: String, outgoing: bool, files: Vec<FileMeta>, sources: Vec<String>, save_dir: Option<String> },
    /// A receiver tells with `done` where the file has been saved.
    FileProgress { transfer_id: String, file_id: String, transferred: u64, total: u64, done: bool, path: Option<String> },
    TransferFinished { transfer_id: String, error: Option<String> },
    Error { context: String, message: String },
    Info(String),
}

/// [`CoreEvent`] as the contracts speak of it.
#[verifier::ext_equal]
pub enum CoreEventView {
    DeviceUp(DeviceView),
    DeviceDown { id: Seq<char>, name: Seq<char> },
    Message { msg: ChatMessageView },
    IncomingRequest { req_id: Seq<char>, peer: DeviceView, files: Seq<FileMetaView> },
    RequestExpired { req_id: Seq<char> },
    TransferStarted { transfer_id: Seq<char>, peer_id: Seq<char>, peer_name: Seq<char>, outgoing: bool, files: Seq<FileMetaView>, sources: Seq<Seq<char>>, save_dir: Option<Seq<char>> },
    FileProgress { transfer_id: Seq<char>, file_id: Seq<char>, transferred: u64, total: u64, done: bool, path: Option<Seq<char>> },
    TransferFinished { transfer_id: Seq<char>, error: Option<Seq<char>> },
    Error { context: Seq<char>, message: Seq<char> },
    Info(Seq<char>),
}

impl DeepView for CoreEvent {
    type V = CoreEventView;

    open spec fn deep_view(&self) -> CoreEventView {
        match self {
            CoreEvent::DeviceUp(a) => CoreEventView::DeviceUp(a.deep_view()),
            CoreEvent::DeviceDown { id, name } => CoreEventView::DeviceDown { id: id.deep_view(), name: name.deep_view() },
            CoreEvent::Message { msg } => CoreEventView::Message { msg: msg.deep_view() },
            CoreEvent::IncomingRequest { req_id, peer, files } => CoreEventView::IncomingRequest { req_id: req_id.deep_view(), peer: peer.deep_view(), files: files.deep_view() },
            CoreEvent::RequestExpired { req_id } => CoreEventView::RequestExpired { req_id: req_id.deep_view() },
            CoreEvent::TransferStarted { transfer_id, peer_id, peer_name, outgoing, files, sources, save_dir } => CoreEventView::TransferStarted { transfer_id: transfer_id.deep_view(), peer_id: peer_id.deep_view(), peer_name: peer_name.deep_view(), outgoing: outgoing.deep_view(), files: files.deep_view(), sources: sources.deep_view(), save_dir: save_dir.deep_view() },
            CoreEvent::FileProgress { transfer_id, file_id, transferred, total, done, path } => CoreEventView::FileProgress { transfer_id: transfer_id.deep_view(), file_id: file_id.deep_view(), transferred: transferred.deep_view(), total: total.deep_view(), done: done.deep_view(), path: path.deep_view() },
            CoreEvent::TransferFinished { transfer_id, error } => CoreEventView::TransferFinished { transfer_id: transfer_id.deep_view(), error: error.deep_view() },
            CoreEvent::Error { context, message } => CoreEventView::Error { context: context.deep_view(), message: message.deep_view() },
            CoreEvent::Info(a) => CoreEventView::Info(a.deep_view()),
        }
    }
}

impl Clone for CoreEvent {
    fn clone(&self) -> (r: Self)
        ensures
            r.deep_view() == self.deep_view(),
    {
        match self {
            CoreEvent::DeviceUp(a) => CoreEvent::DeviceUp(a.clone()),
            CoreEvent::DeviceDown { id, name } => CoreEvent::DeviceDown { id: id.clone(), name: name.clone() },
            CoreEvent::Message { msg } => CoreEvent::Message { msg: msg.clone() },
            CoreEvent::IncomingRequest { req_id, peer, files } => {
                let files_copy = files.clone();
                assert(files_copy.deep_view() =~= files.deep_view());
                CoreEvent::IncomingRequest { req_id: req_id.clone(), peer: peer.clone(), files: files_copy }
            },
            CoreEvent::RequestExpired { req_id } => CoreEvent::RequestExpired { req_id: req_id.clone() },
            CoreEvent::TransferStarted { transfer_id, peer_id, peer_name, outgoing, files, sources, save_dir } => {
                let files_copy = files.clone();
                assert(files_copy.deep_view() =~= files.deep_view());
                let sources_copy = sources.clone();
                assert(sources_copy.deep_view() =~= sources.deep_view());
                CoreEvent::TransferStarted { transfer_id: transfer_id.clone(), peer_id: peer_id.clone(), peer_name: peer_name.clone(), outgoing: *outgoing, files: files_copy, sources: sources_copy, save_dir: save_dir.clone() }
            },
            CoreEvent::FileProgress { transfer_id, file_id, transferred, total, done, path } => CoreEvent::FileProgress { transfer_id: transfer_id.clone(), file_id: file_id.clone(), transferred: *transferred, total: *total, done: *done, path: path.clone() },
            CoreEvent::TransferFinished { transfer_id, error } => CoreEvent::TransferFinished { transfer_id: transfer_id.clone(), error: error.clone() },
            CoreEvent::Error { context, message } => CoreEvent::Error { context: context.clone(), message: message.clone() },
            CoreEvent::Info(a) => CoreEvent::Info(a.clone()),
        }
    }
}

/// What the user interface asks of the core.
#[derive(Debug, PartialEq, Eq)]
pub enum UiCommand {
    SendText { peer_id: String, text: String },
    SendFiles { peer_id: String, paths: Vec<String> },
    /// With `overwrite` a file of the same name is replaced, without it the
    /// new file gets a number.
    RespondRequest { req_id: String, accept: bool, save_dir: Option<String>, overwrite: bool },
    CancelTransfer { transfer_id: String },
    Rename { name: String },
    WebOffer { paths: Vec<String> },
    WebText { text: String },
    /// An address, or an address and a port.
    ConnectPeer { host: String },
    Shutdown,
}

/// [`UiCommand`] as the contracts speak of it.
#[verifier::ext_equal]
pub enum UiCommandView {
    SendText { peer_id: Seq<char>, text: Seq<char> },
    SendFiles { peer_id: Seq<char>, paths: Seq<Seq<char>> },
    RespondRequest { req_id: Seq<char>, accept: bool, save_dir: Option<Seq<char>>, overwrite: bool },
    CancelTransfer { transfer_id: Seq<char> },
    Rename { name: Seq<char> },
    WebOffer { paths: Seq<Seq<char>> },
    WebText { text: Seq<char> },
    ConnectPeer { host: Seq<char> },
    Shutdown,
}

impl DeepView for UiCommand {
    type V = UiCommandView;

    open spec fn deep_view(&self) -> UiCommandView {
        match self {
            UiCommand::SendText { peer_id, text } => UiCommandView::SendText { peer_id: peer_id.deep_view(), text: text.deep_view() },
            UiCommand::SendFiles { peer_id, paths } => UiCommandView::SendFiles { peer_id: peer_id.deep_view(), paths: paths.deep_view() },
            UiCommand::RespondRequest { req_id, accept, save_dir, overwrite } => UiCommandView::RespondRequest { req_id: req_id.deep_view(), accept: accept.deep_view(), save_dir: save_dir.deep_view(), overwrite: overwrite.deep_view() },
            UiCommand::CancelTransfer { transfer_id } => UiCommandView::CancelTransfer { transfer_id: transfer_id.deep_view() },
            UiCommand::Rename { name } => UiCommandView::Rename { name: name.deep_view() },
            UiCommand::WebOffer { paths } => UiCommandView::WebOffer { paths: paths.deep_view() },
            UiCommand::WebText { text } => UiCommandView::WebText { text: text.deep_view() },
            UiCommand::ConnectPeer { host } => UiCommandView::ConnectPeer { host: host.deep_view() },
            UiCommand::Shutdown => UiCommandView::Shutdown,
        }
    }
}

impl Clone for UiCommand {
    fn clone(&self) -> (r: Self)
        ensures
            r.deep_view() == self.deep_view(),
    {
        match self {
            UiCommand::SendText { peer_id, text } => UiCommand::SendText { peer_id: peer_id.clone(), text: text.clone() },
            UiCommand::SendFiles { peer_id, paths } => {
                let paths_copy = paths.clone();
                assert(paths_copy.deep_view() =~= paths.deep_view());
                UiCommand::SendFiles { peer_id: peer_id.clone(), paths: paths_copy }
            },
            UiCommand::RespondRequest { req_id, accept, save_dir, overwrite } => UiCommand::RespondRequest { req_id: req_id.clone(), accept: *accept, save_dir: save_dir.clone(), overwrite: *overwrite },
            UiCommand::CancelTransfer { transfer_id } => UiCommand::CancelTransfer { transfer_id: transfer_id.clone() },
            UiCommand::Rename { name } => UiCommand::Rename { name: name.clone() },
            UiCommand::WebOffer { paths } => {
                let paths_copy = paths.clone();
                assert(paths_copy.deep_view() =~= paths.deep_view());
                UiCommand::WebOffer { paths: paths_copy }
            },
            UiCommand::WebText { text } => UiCommand::WebText { text: text.clone() },
            UiCommand::ConnectPeer { host } => UiCommand::ConnectPeer { host: host.clone() },
            UiCommand::Shutdown => UiCommand::Shutdown,
        }
    }
}

// ---------------------------------------------------------------------------
// Time
// ---------------------------------------------------------------------------

/// Calls `std::time::SystemTime::elapsed` on the Unix epoch and hands out the
/// milliseconds; nothing where the clock stands before it. What the clock
/// says is not stated.
#[verifier::external_body]
fn since_epoch() -> (r: Option<u128>) {
    std::time::UNIX_EPOCH.elapsed().ok().map(|d| d.as_millis())
}

/// Milliseconds since the epoch as the protocol counts them: 0 before it.
pub open spec fn clock_value(m: Option<u128>) -> i64 {
    match m {
        Some(x) => x as i64,
        None => 0,
    }
}

pub fn clock_ms(m: Option<u128>) -> (r: i64)
    ensures
        r == clock_value(m),
{
    match m {
        Some(x) => {
            #[verifier::truncate]
            let r: i64 = x as i64;
            r
        },
        None => 0,
    }
}

/// The time by the clock of this machine, in milliseconds since the epoch.
/// Which time that is cannot be stated.
pub fn now_ms() -> (r: i64) {
    clock_ms(since_epoch())
}

/// Lets through one progress report per interval.
#[derive(Debug, PartialEq, Eq)]
pub struct ProgressThrottle {
    pub last_ms: i64,
    pub interval_ms: i64,
}

/// Whether a report is due.
pub open spec fn is_due(last_ms: i64, interval_ms: i64, now: i64) -> bool {
    now - last_ms >= interval_ms
}

impl ProgressThrottle {
    pub fn new(interval_ms: i64) -> (r: Self)
        ensures
            r.last_ms == 0,
            r.interval_ms == interval_ms,
    {
        ProgressThrottle { last_ms: 0, interval_ms }
    }

    pub fn allow_at(&mut self, now: i64) -> (r: bool)
        ensures
            r == is_due(old(self).last_ms, old(self).interval_ms, now),
            final(self).last_ms == (if r {
                now
            } else {
                old(self).last_ms
            }),
            final(self).interval_ms == old(self).interval_ms,
    {
        if now as i128 - self.last_ms as i128 >= self.interval_ms as i128 {
            self.last_ms = now;
            true
        } else {
            false
        }
    }

    /// Decides at the present time: what [`ProgressThrottle::allow_at`] says
    /// at the time that the clock gave.
    pub fn allow(&mut self) -> (r: bool)
        ensures
            final(self).interval_ms == old(self).interval_ms,
            r ==> is_due(old(self).last_ms, old(self).interval_ms, final(self).last_ms),
            !r ==> final(self).last_ms == old(self).last_ms,
            old(self).interval_ms <= i64::MIN - old(self).last_ms ==> r,
            old(self).interval_ms > i64::MAX - old(self).last_ms ==> !r,
    {
        let now = now_ms();
        self.allow_at(now)
    }
}

/// The times at which a throttle that is asked at `times` lets a report
/// through.
pub open spec fn let_through(last_ms: i64, interval_ms: i64, times: Seq<i64>) -> Seq<i64>
    decreases times.len(),
{
    if times.len() == 0 {
        Seq::empty()
    } else if is_due(last_ms, interval_ms, times[0]) {
        seq![times[0]] + let_through(times[0], interval_ms, times.skip(1))
    } else {
        let_through(last_ms, interval_ms, times.skip(1))
    }
}

/// Reports that a throttle lets through are at least one interval apart,
/// whenever it is asked.
pub proof fn law_reports_are_spaced(last_ms: i64, interval_ms: i64, times: Seq<i64>)
    ensures
        ({
            let p = let_through(last_ms, interval_ms, times);
            &&& p.len() > 0 ==> p[0] - last_ms >= interval_ms
            &&& forall|i: int| 0 < i < p.len() ==> #[trigger] p[i] - p[i - 1] >= interval_ms
        }),
    decreases times.len(),
{
    if times.len() > 0 {
        let p = let_through(last_ms, interval_ms, times);
        let rest = times.skip(1);
        if is_due(last_ms, interval_ms, times[0]) {
            law_reports_are_spaced(times[0], interval_ms, rest);
            let q = let_through(times[0], interval_ms, rest);
            assert(p =~= seq![times[0]] + q);
            assert forall|i: int| 0 < i < p.len() implies #[trigger] p[i] - p[i - 1]
                >= interval_ms by {
                assert(p[i] == q[i - 1]);
                if i > 1 {
                    assert(p[i - 1] == q[i - 2]);
                }
            }
        } else {
            law_reports_are_spaced(last_ms, interval_ms, rest);
        }
    }
}

// ---------------------------------------------------------------------------
// Sizes
// ---------------------------------------------------------------------------

/// `n / d` rounded to the nearest integer, and to the even one of two.
pub open spec fn half_even(n: nat, d: nat) -> nat {
    if 2 * (n % d) > d || (2 * (n % d) == d && (n / d) % 2 == 1) {
        n / d + 1
    } else {
        n / d
    }
}

/// How many binary digits `n` has beyond 53.
pub open spec fn excess_bits(n: nat) -> nat
    decreases n,
{
    if n < 0x20_0000_0000_0000 {
        0
    } else {
        1 + excess_bits(n / 2)
    }
}

/// `n` to a precision of 53 binary digits.
pub open spec fn to_53_bits(n: nat) -> nat {
    half_even(n, vstd::arithmetic::power2::pow2(excess_bits(n))) * vstd::arithmetic::power2::pow2(
        excess_bits(n),
    )
}

/// How many bytes the unit of a size stands for, and the name of the unit.
pub open spec fn size_unit(n: nat) -> (nat, Seq<char>) {
    if n < 0x400 {
        (1, "B"@)
    } else if n < 0x10_0000 {
        (0x400, "KB"@)
    } else if n < 0x4000_0000 {
        (0x10_0000, "MB"@)
    } else if n < 0x100_0000_0000 {
        (0x4000_0000, "GB"@)
    } else {
        (0x100_0000_0000, "TB"@)
    }
}

/// A size for people: whole bytes below one kilobyte, else one decimal of the
/// largest unit that fits, taken of the size to 53 binary digits.
pub open spec fn size_text(bytes: nat) -> Seq<char> {
    let n = to_53_bits(bytes);
    let (unit, name) = size_unit(n);
    if unit == 1 {
        text::decimal(bytes) + " B"@
    } else {
        let tenths = half_even(10 * n, unit);
        text::decimal(tenths / 10) + "."@ + text::decimal(tenths % 10) + " "@ + name
    }
}

fn round_half_even(n: u128, d: u128) -> (r: u128)
    requires
        0 < d <= 0x100_0000_0000,
        n <= 0xfff_ffff_ffff_ffff_ffff,
    ensures
        r == half_even(n as nat, d as nat),
        r <= n + 1,
{
    let q: u128 = n / d;
    let m: u128 = n % d;
    proof {
        assert(n as int / d as int <= n) by (nonlinear_arith)
            requires
                d > 0,
                n >= 0,
        ;
    }
    if 2 * m > d || (2 * m == d && q % 2 == 1) {
        q + 1
    } else {
        q
    }
}

fn excess(n: u64) -> (r: (u32, u64))
    ensures
        r.0 == excess_bits(n as nat),
        r.0 <= 11,
        r.1 == vstd::arithmetic::power2::pow2(r.0 as nat),
        r.1 <= 2048,
{
    let mut k: u32 = 0;
    let mut p: u64 = 1;
    let mut m: u64 = n;
    proof {
        vstd::arithmetic::power2::lemma2_to64();
    }
    while m >= 0x20_0000_0000_0000
        invariant
            excess_bits(n as nat) == k + excess_bits(m as nat),
            k <= 11,
            p == vstd::arithmetic::power2::pow2(k as nat),
            p <= 2048,
            m * p <= n,
            m >= 0x20_0000_0000_0000 ==> k < 11,
        decreases m,
    {
        proof {
            vstd::arithmetic::power2::lemma_pow2_unfold((k + 1) as nat);
            assert((m / 2) * (p * 2) <= m * p) by (nonlinear_arith);
            vstd::arithmetic::power2::lemma2_to64();
        }
        m = m / 2;
        k = k + 1;
        p = p * 2;
        proof {
            if m >= 0x20_0000_0000_0000 {
                assert(k < 11) by {
                    if k >= 11 {
                        assert(m * p >= 0x20_0000_0000_0000 * 2048) by (nonlinear_arith)
                            requires
                                m >= 0x20_0000_0000_0000,
                                p == 2048,
                        ;
                    }
                }
            }
        }
    }
    (k, p)
}

pub fn fmt_size(bytes: u64) -> (r: String)
    ensures
        r@ == size_text(bytes as nat),
{
    let (k, p) = excess(bytes);
    proof {
        vstd::arithmetic::power2::lemma_pow2_pos(k as nat);
    }
    let h: u128 = round_half_even(bytes as u128, p as u128);
    proof {
        assert(h * p <= 0x1_0000_0000_0000_0000 * 2048) by (nonlinear_arith)
            requires
                h <= bytes + 1,
                bytes <= 0xffff_ffff_ffff_ffff,
                p <= 2048,
        ;
        lemma_rounded_bound(bytes as nat, p as nat);
    }
    let n: u128 = h * (p as u128);
    if n < 0x400 {
        let d = to_decimal(bytes);
        return cat(d.as_str(), " B");
    }
    let (unit, name) = if n < 0x10_0000 {
        (0x400u128, "KB")
    } else if n < 0x4000_0000 {
        (0x10_0000u128, "MB")
    } else if n < 0x100_0000_0000 {
        (0x4000_0000u128, "GB")
    } else {
        (0x100_0000_0000u128, "TB")
    };
    let tenths: u128 = round_half_even(10 * n, unit);
    proof {
        lemma_tenths_bound(n as nat, unit as nat);
    }
    let whole = to_decimal((tenths / 10) as u64);
    let rest = to_decimal((tenths % 10) as u64);
    let mut out = whole;
    out.append(".");
    out.append(rest.as_str());
    out.append(" ");
    out.append(name);
    out
}

proof fn lemma_rounded_bound(n: nat, p: nat)
    requires
        0 < p,
    ensures
        half_even(n, p) * p <= n + p,
{
    let q = n / p;
    assert(q * p <= n) by {
        vstd::arithmetic::div_mod::lemma_fundamental_div_mod(n as int, p as int);
        assert(q * p == p * q) by (nonlinear_arith);
    }
    assert((q + 1) * p == q * p + p) by (nonlinear_arith);
}

proof fn lemma_tenths_bound(n: nat, unit: nat)
    requires
        unit >= 0x400,
        n <= 0x1_0000_0000_0000_1000,
    ensures
        half_even(10 * n, unit) <= 0xffff_ffff_ffff_ffff,
{
    vstd::arithmetic::div_mod::lemma_div_is_ordered_by_denominator(
        (10 * n) as int,
        0x400,
        unit as int,
    );
}

/// A size below one kilobyte is told in bytes; whole kilobytes, megabytes and
/// gigabytes are told as such.
pub proof fn law_whole_sizes_are_told_as_such(k: nat)
    requires
        1 <= k < 1024,
    ensures
        size_text(k) == text::decimal(k) + " B"@,
        size_text(0x400 * k) == text::decimal(k) + "."@ + text::decimal(0) + " "@ + "KB"@,
        size_text(0x10_0000 * k) == text::decimal(k) + "."@ + text::decimal(0) + " "@ + "MB"@,
        size_text(0x4000_0000 * k) == text::decimal(k) + "."@ + text::decimal(0) + " "@ + "GB"@,
{
    lemma_small_size_is_exact(k);
    lemma_small_size_is_exact(0x400 * k);
    lemma_small_size_is_exact(0x10_0000 * k);
    lemma_small_size_is_exact(0x4000_0000 * k);
    assert(half_even(10 * (0x400 * k), 0x400) == 10 * k);
    assert(half_even(10 * (0x10_0000 * k), 0x10_0000) == 10 * k);
    assert(half_even(10 * (0x4000_0000 * k), 0x4000_0000) == 10 * k);
}

proof fn lemma_small_size_is_exact(n: nat)
    requires
        n < 0x20_0000_0000_0000,
    ensures
        to_53_bits(n) == n,
{
    vstd::arithmetic::power2::lemma_pow2(0);
    vstd::arithmetic::power::lemma_pow0(2);
    assert(excess_bits(n) == 0);
    assert(vstd::arithmetic::power2::pow2(0) == 1);
    assert(n % 1 == 0);
    assert(n / 1 == n);
}

} // verus!

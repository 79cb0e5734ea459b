//! Settings, and messages as rows of the history.

use vstd::prelude::*;
use vstd::string::*;

use crate::ids;
use crate::ids::{new_id, random_bytes};
use crate::paths;
use crate::paths::{join_path, System};
use crate::proto::{
    ChatMessage, ChatMessageView, MessageKind, MessageKindView, DEFAULT_HTTP_PORT,
};
use crate::text::{cat, cat3, chars_of, string_range};

verus! {

// ---------------------------------------------------------------------------
// Settings
// ---------------------------------------------------------------------------

/// The settings of a device.
#[derive(Debug, PartialEq, Eq)]
pub struct Config {
    /// Made once, then kept.
    pub device_id: String,
    pub device_name: String,
    pub http_port: u16,
    pub download_dir: String,
    /// Takes files without asking.
    pub auto_receive: bool,
    /// What closing the window does: `ask`, `tray` or `close`.
    pub close_action: String,
}

/// [`Config`] as the contracts speak of it.
#[verifier::ext_equal]
pub struct ConfigView {
    pub device_id: Seq<char>,
    pub device_name: Seq<char>,
    pub http_port: u16,
    pub download_dir: Seq<char>,
    pub auto_receive: bool,
    pub close_action: Seq<char>,
}

impl DeepView for Config {
    type V = ConfigView;

    open spec fn deep_view(&self) -> ConfigView {
        ConfigView {
            device_id: self.device_id.deep_view(),
            device_name: self.device_name.deep_view(),
            http_port: self.http_port.deep_view(),
            download_dir: self.download_dir.deep_view(),
            auto_receive: self.auto_receive.deep_view(),
            close_action: self.close_action.deep_view(),
        }
    }
}

impl Clone for Config {
    fn clone(&self) -> (r: Self)
        ensures
            r.deep_view() == self.deep_view(),
    {
        let r = Config {
            device_id: self.device_id.clone(),
            device_name: self.device_name.clone(),
            http_port: self.http_port,
            download_dir: self.download_dir.clone(),
            auto_receive: self.auto_receive,
            close_action: self.close_action.clone(),
        };
        r
    }
}

/// The first adjective of a device name.
pub open spec fn adjective(i: int) -> Seq<char> {
    if i == 0 {
        "温柔的"@
    } else if i == 1 {
        "安静的"@
    } else if i == 2 {
        "快乐的"@
    } else if i == 3 {
        "勇敢的"@
    } else if i == 4 {
        "自由的"@
    } else if i == 5 {
        "神秘的"@
    } else if i == 6 {
        "优雅的"@
    } else if i == 7 {
        "活泼的"@
    } else if i == 8 {
        "沉静的"@
    } else if i == 9 {
        "明亮的"@
    } else if i == 10 {
        "柔软的"@
    } else if i == 11 {
        "轻盈的"@
    } else if i == 12 {
        "悠然的"@
    } else if i == 13 {
        "清澈的"@
    } else if i == 14 {
        "可爱的"@
    } else if i == 15 {
        "狡黠的"@
    } else if i == 16 {
        "坦率的"@
    } else if i == 17 {
        "浪漫的"@
    } else if i == 18 {
        "顽皮的"@
    } else if i == 19 {
        "认真的"@
    } else if i == 20 {
        "热烈的"@
    } else if i == 21 {
        "朦胧的"@
    } else if i == 22 {
        "顺风的"@
    } else if i == 23 {
        "发光的"@
    } else if i == 24 {
        "微笑的"@
    } else if i == 25 {
        "好奇的"@
    } else if i == 26 {
        "懒洋洋的"@
    } else if i == 27 {
        "慢悠悠的"@
    } else if i == 28 {
        "亮晶晶的"@
    } else if i == 29 {
        "毛茸茸的"@
    } else if i == 30 {
        "圆滚滚的"@
    } else {
        "慢半拍的"@
    }
}

/// The noun of a device name.
pub open spec fn noun(i: int) -> Seq<char> {
    if i == 0 {
        "山雀"@
    } else if i == 1 {
        "鲸鱼"@
    } else if i == 2 {
        "萤火"@
    } else if i == 3 {
        "松鼠"@
    } else if i == 4 {
        "云雀"@
    } else if i == 5 {
        "海豚"@
    } else if i == 6 {
        "月光"@
    } else if i == 7 {
        "星河"@
    } else if i == 8 {
        "芦苇"@
    } else if i == 9 {
        "清泉"@
    } else if i == 10 {
        "晚风"@
    } else if i == 11 {
        "候鸟"@
    } else if i == 12 {
        "竹叶"@
    } else if i == 13 {
        "雪花"@
    } else if i == 14 {
        "灯塔"@
    } else if i == 15 {
        "小熊"@
    } else if i == 16 {
        "旅人"@
    } else if i == 17 {
        "橘猫"@
    } else if i == 18 {
        "白鹭"@
    } else if i == 19 {
        "远山"@
    } else if i == 20 {
        "湖泊"@
    } else if i == 21 {
        "松果"@
    } else if i == 22 {
        "蒲公英"@
    } else if i == 23 {
        "布谷鸟"@
    } else if i == 24 {
        "小雨滴"@
    } else if i == 25 {
        "贝壳"@
    } else if i == 26 {
        "枫叶"@
    } else if i == 27 {
        "流星"@
    } else if i == 28 {
        "麦浪"@
    } else if i == 29 {
        "溪水"@
    } else if i == 30 {
        "云朵"@
    } else {
        "海风"@
    }
}

fn pick_adjective(i: u8) -> (r: &'static str)
    ensures
        r@ == adjective(i as int),
{
    if i == 0 {
        "温柔的"
    } else if i == 1 {
        "安静的"
    } else if i == 2 {
        "快乐的"
    } else if i == 3 {
        "勇敢的"
    } else if i == 4 {
        "自由的"
    } else if i == 5 {
        "神秘的"
    } else if i == 6 {
        "优雅的"
    } else if i == 7 {
        "活泼的"
    } else if i == 8 {
        "沉静的"
    } else if i == 9 {
        "明亮的"
    } else if i == 10 {
        "柔软的"
    } else if i == 11 {
        "轻盈的"
    } else if i == 12 {
        "悠然的"
    } else if i == 13 {
        "清澈的"
    } else if i == 14 {
        "可爱的"
    } else if i == 15 {
        "狡黠的"
    } else if i == 16 {
        "坦率的"
    } else if i == 17 {
        "浪漫的"
    } else if i == 18 {
        "顽皮的"
    } else if i == 19 {
        "认真的"
    } else if i == 20 {
        "热烈的"
    } else if i == 21 {
        "朦胧的"
    } else if i == 22 {
        "顺风的"
    } else if i == 23 {
        "发光的"
    } else if i == 24 {
        "微笑的"
    } else if i == 25 {
        "好奇的"
    } else if i == 26 {
        "懒洋洋的"
    } else if i == 27 {
        "慢悠悠的"
    } else if i == 28 {
        "亮晶晶的"
    } else if i == 29 {
        "毛茸茸的"
    } else if i == 30 {
        "圆滚滚的"
    } else {
        "慢半拍的"
    }
}

fn pick_noun(i: u8) -> (r: &'static str)
    ensures
        r@ == noun(i as int),
{
    if i == 0 {
        "山雀"
    } else if i == 1 {
        "鲸鱼"
    } else if i == 2 {
        "萤火"
    } else if i == 3 {
        "松鼠"
    } else if i == 4 {
        "云雀"
    } else if i == 5 {
        "海豚"
    } else if i == 6 {
        "月光"
    } else if i == 7 {
        "星河"
    } else if i == 8 {
        "芦苇"
    } else if i == 9 {
        "清泉"
    } else if i == 10 {
        "晚风"
    } else if i == 11 {
        "候鸟"
    } else if i == 12 {
        "竹叶"
    } else if i == 13 {
        "雪花"
    } else if i == 14 {
        "灯塔"
    } else if i == 15 {
        "小熊"
    } else if i == 16 {
        "旅人"
    } else if i == 17 {
        "橘猫"
    } else if i == 18 {
        "白鹭"
    } else if i == 19 {
        "远山"
    } else if i == 20 {
        "湖泊"
    } else if i == 21 {
        "松果"
    } else if i == 22 {
        "蒲公英"
    } else if i == 23 {
        "布谷鸟"
    } else if i == 24 {
        "小雨滴"
    } else if i == 25 {
        "贝壳"
    } else if i == 26 {
        "枫叶"
    } else if i == 27 {
        "流星"
    } else if i == 28 {
        "麦浪"
    } else if i == 29 {
        "溪水"
    } else if i == 30 {
        "云朵"
    } else {
        "海风"
    }
}

/// The device name that two random bytes stand for.
pub open spec fn poetic_text(a: u8, b: u8) -> Seq<char> {
    adjective(a as int % 32) + noun(b as int % 32)
}

pub fn poetic_name(a: u8, b: u8) -> (r: String)
    ensures
        r@ == poetic_text(a, b),
{
    cat(pick_adjective(a % 32), pick_noun(b % 32))
}

/// A device name by chance: an adjective and a noun.
pub fn random_poetic_name() -> (r: String)
    ensures
        exists|a: u8, b: u8| r@ == #[trigger] poetic_text(a, b),
{
    let bytes = random_bytes();
    poetic_name(bytes[0], bytes[1])
}

/// Where files go by default: below the download directory, else below the
/// home directory, else below the present one.
pub open spec fn download_text(
    download: Option<Seq<char>>,
    home: Option<Seq<char>>,
    sys: System,
) -> Seq<char> {
    let base = match download {
        Some(d) => d,
        None => match home {
            Some(h) => h,
            None => "."@,
        },
    };
    paths::joined_path(base, "LocalTransfer"@, sys)
}

pub fn default_download_dir(
    download: Option<String>,
    home: Option<String>,
    sys: System,
) -> (r: String)
    ensures
        r@ == download_text(download.deep_view(), home.deep_view(), sys),
{
    let base = match download {
        Some(d) => d,
        None => match home {
            Some(h) => h,
            None => ".".to_owned(),
        },
    };
    join_path(base.as_str(), "LocalTransfer", sys)
}

impl Config {
    /// The settings of a device that is started for the first time. Id and
    /// name are left to chance.
    pub fn fresh(download_dir: String) -> (r: Config)
        ensures
            ids::is_uuid_text(r.device_id@),
            exists|a: u8, b: u8| r.device_name@ == #[trigger] poetic_text(a, b),
            r.http_port == DEFAULT_HTTP_PORT,
            r.download_dir@ == download_dir@,
            !r.auto_receive,
            r.close_action@ == "ask"@,
    {
        Config {
            device_id: new_id(),
            device_name: random_poetic_name(),
            http_port: DEFAULT_HTTP_PORT,
            download_dir,
            auto_receive: false,
            close_action: "ask".to_owned(),
        }
    }
}

/// A text without the byte order marks that some editors put in front.
pub open spec fn without_marks(s: Seq<char>) -> Seq<char>
    decreases s.len(),
{
    if s.len() > 0 && s[0] == '\u{feff}' {
        without_marks(s.skip(1))
    } else {
        s
    }
}

pub fn strip_marks(s: &str) -> (r: String)
    ensures
        r@ == without_marks(s@),
{
    let v = chars_of(s);
    let n: usize = v.len();
    let mut i: usize = 0;
    assert(v@.skip(0) =~= v@);
    while i < n && v[i] == '\u{feff}'
        invariant
            n == v@.len(),
            i <= n,
            without_marks(v@.skip(i as int)) == without_marks(v@),
        decreases n - i,
    {
        assert(v@.skip(i as int).skip(1) =~= v@.skip(i + 1));
        i = i + 1;
    }
    assert(v@.subrange(i as int, n as int) =~= v@.skip(i as int));
    string_range(&v, i, n)
}

// ---------------------------------------------------------------------------
// History
// ---------------------------------------------------------------------------

/// A message as the history holds it, without its number.
#[derive(Debug, PartialEq, Eq)]
pub struct Row {
    pub peer_id: String,
    /// 1 where this device sent it, else 0.
    pub outgoing: i64,
    /// 0 for a text, 1 for a file.
    pub kind: i64,
    /// The text, or the name of the file.
    pub content: String,
    pub file_path: Option<String>,
    pub file_size: Option<i64>,
    pub transfer_id: Option<String>,
    pub file_id: Option<String>,
    pub created_at: i64,
}

/// [`Row`] as the contracts speak of it.
#[verifier::ext_equal]
pub struct RowView {
    pub peer_id: Seq<char>,
    pub outgoing: i64,
    pub kind: i64,
    pub content: Seq<char>,
    pub file_path: Option<Seq<char>>,
    pub file_size: Option<i64>,
    pub transfer_id: Option<Seq<char>>,
    pub file_id: Option<Seq<char>>,
    pub created_at: i64,
}

impl DeepView for Row {
    type V = RowView;

    open spec fn deep_view(&self) -> RowView {
        RowView {
            peer_id: self.peer_id.deep_view(),
            outgoing: self.outgoing.deep_view(),
            kind: self.kind.deep_view(),
            content: self.content.deep_view(),
            file_path: self.file_path.deep_view(),
            file_size: self.file_size.deep_view(),
            transfer_id: self.transfer_id.deep_view(),
            file_id: self.file_id.deep_view(),
            created_at: self.created_at.deep_view(),
        }
    }
}

impl Clone for Row {
    fn clone(&self) -> (r: Self)
        ensures
            r.deep_view() == self.deep_view(),
    {
        let r = Row {
            peer_id: self.peer_id.clone(),
            outgoing: self.outgoing,
            kind: self.kind,
            content: self.content.clone(),
            file_path: self.file_path.clone(),
            file_size: self.file_size.clone(),
            transfer_id: self.transfer_id.clone(),
            file_id: self.file_id.clone(),
            created_at: self.created_at,
        };
        r
    }
}

/// How a message is stored. A size is stored by its bits, as a signed number.
pub open spec fn row_of(m: ChatMessageView) -> RowView {
    let outgoing: i64 = if m.outgoing {
        1
    } else {
        0
    };
    match m.kind {
        MessageKindView::Text(t) => RowView {
            peer_id: m.peer_id,
            outgoing,
            kind: 0,
            content: t,
            file_path: None,
            file_size: None,
            transfer_id: None,
            file_id: None,
            created_at: m.created_at,
        },
        MessageKindView::File { name, size, saved_path, transfer_id, file_id } => RowView {
            peer_id: m.peer_id,
            outgoing,
            kind: 1,
            content: name,
            file_path: saved_path,
            file_size: Some(size as i64),
            transfer_id,
            file_id,
            created_at: m.created_at,
        },
    }
}

/// The message that a row stands for.
pub open spec fn message_of(id: i64, row: RowView) -> ChatMessageView {
    ChatMessageView {
        id,
        peer_id: row.peer_id,
        outgoing: row.outgoing != 0,
        kind: if row.kind == 0 {
            MessageKindView::Text(row.content)
        } else {
            MessageKindView::File {
                name: row.content,
                size: (match row.file_size {
                    Some(n) => n,
                    None => 0,
                }) as u64,
                saved_path: row.file_path,
                transfer_id: row.transfer_id,
                file_id: row.file_id,
            }
        },
        created_at: row.created_at,
    }
}

/// What is read back is what was stored, for every message.
pub proof fn law_row_reads_back(m: ChatMessageView)
    ensures
        message_of(m.id, row_of(m)) == m,
{
    match m.kind {
        MessageKindView::File { name, size, saved_path, transfer_id, file_id } => {
            assert((size as i64) as u64 == size) by (bit_vector);
        },
        MessageKindView::Text(_) => {},
    }
}

/// Noting where a file was saved changes only that.
pub open spec fn with_path(row: RowView, path: Seq<char>) -> RowView {
    RowView { file_path: Some(path), ..row }
}

/// After a file has been saved, the message says where, and else what it said
/// before.
pub proof fn law_saved_path_reads_back(m: ChatMessageView, path: Seq<char>)
    requires
        m.kind is File,
    ensures
        message_of(m.id, with_path(row_of(m), path)) == (ChatMessageView {
            kind: MessageKindView::File {
                name: m.kind->name,
                size: m.kind->size,
                saved_path: Some(path),
                transfer_id: m.kind->transfer_id,
                file_id: m.kind->file_id,
            },
            ..m
        }),
{
    law_row_reads_back(m);
}

pub fn encode(m: &ChatMessage) -> (r: Row)
    ensures
        r.deep_view() == row_of(m.deep_view()),
{
    let outgoing: i64 = if m.outgoing {
        1
    } else {
        0
    };
    match &m.kind {
        MessageKind::Text(t) => Row {
            peer_id: m.peer_id.clone(),
            outgoing,
            kind: 0,
            content: t.clone(),
            file_path: None,
            file_size: None,
            transfer_id: None,
            file_id: None,
            created_at: m.created_at,
        },
        MessageKind::File { name, size, saved_path, transfer_id, file_id } => {
            #[verifier::truncate]
            let stored: i64 = *size as i64;
            Row {
                peer_id: m.peer_id.clone(),
                outgoing,
                kind: 1,
                content: name.clone(),
                file_path: saved_path.clone(),
                file_size: Some(stored),
                transfer_id: transfer_id.clone(),
                file_id: file_id.clone(),
                created_at: m.created_at,
            }
        },
    }
}

pub fn decode(id: i64, row: Row) -> (r: ChatMessage)
    ensures
        r.deep_view() == message_of(id, row.deep_view()),
{
    let kind = if row.kind == 0 {
        MessageKind::Text(row.content)
    } else {
        let stored: i64 = match row.file_size {
            Some(n) => n,
            None => 0,
        };
        #[verifier::truncate]
        let size: u64 = stored as u64;
        MessageKind::File {
            name: row.content,
            size,
            saved_path: row.file_path,
            transfer_id: row.transfer_id,
            file_id: row.file_id,
        }
    };
    ChatMessage {
        id,
        peer_id: row.peer_id,
        outgoing: row.outgoing != 0,
        kind,
        created_at: row.created_at,
    }
}

pub open spec fn messages_of(rows: Seq<(i64, RowView)>) -> Seq<ChatMessageView> {
    Seq::new(rows.len(), |i: int| message_of(rows[i].0, rows[i].1))
}

/// A conversation from rows that came newest first: oldest first.
pub fn history(rows: Vec<(i64, Row)>) -> (r: Vec<ChatMessage>)
    ensures
        r.deep_view() == messages_of(rows.deep_view()).reverse(),
{
    let ghost all = messages_of(rows.deep_view());
    let mut rows = rows;
    let ghost given = rows.deep_view();
    let mut out: Vec<ChatMessage> = Vec::new();
    while rows.len() > 0
        invariant
            all == messages_of(given),
            rows@.len() <= given.len(),
            rows.deep_view() =~= given.take(rows@.len() as int),
            out@.len() == given.len() - rows@.len(),
            forall|k: int| 0 <= k < out@.len() ==> #[trigger] out.deep_view()[k] == all.reverse()[k],
        decreases rows@.len(),
    {
        let ghost n = rows@.len();
        let ghost before = out.deep_view();
        let ghost held = rows.deep_view();
        match rows.pop() {
            Some((id, row)) => {
                assert(held[n - 1] == (id, row.deep_view()));
                let m = decode(id, row);
                assert(held[n - 1] == given[n - 1]);
                out.push(m);
                assert(out.deep_view() =~= before.push(m.deep_view()));
                assert(rows.deep_view() =~= given.take(n - 1));
            },
            None => {},
        }
    }
    assert(out.deep_view() =~= all.reverse());
    out
}

pub const SCHEMA: &'static str = "CREATE TABLE IF NOT EXISTS messages (id INTEGER PRIMARY KEY AUTOINCREMENT, peer_id TEXT NOT NULL, outgoing INTEGER NOT NULL, kind INTEGER NOT NULL, content TEXT NOT NULL, file_path TEXT, file_size INTEGER, transfer_id TEXT, file_id TEXT, created_at INTEGER NOT NULL); CREATE INDEX IF NOT EXISTS idx_messages_peer ON messages(peer_id, id); CREATE TABLE IF NOT EXISTS peers (id TEXT PRIMARY KEY, name TEXT NOT NULL, last_seen INTEGER NOT NULL);";

pub const INSERT_SQL: &'static str = "INSERT INTO messages(peer_id, outgoing, kind, content, file_path, file_size, transfer_id, file_id, created_at) VALUES(?1,?2,?3,?4,?5,?6,?7,?8,?9)";

pub const UPDATE_PATH_SQL: &'static str = "UPDATE messages SET file_path=?1 WHERE id=?2";

pub const HISTORY_SQL: &'static str = "SELECT id, peer_id, outgoing, kind, content, file_path, file_size, transfer_id, file_id, created_at FROM messages WHERE peer_id=?1 ORDER BY id DESC LIMIT ?2";

pub const CLEAR_SQL: &'static str = "DELETE FROM messages WHERE peer_id=?1";

pub const DELETE_SQL: &'static str = "DELETE FROM messages WHERE id=?1";

pub const RECENT_SQL: &'static str = "SELECT peer_id, MAX(created_at) AS t FROM messages GROUP BY peer_id ORDER BY t DESC LIMIT ?1";

pub const UPSERT_PEER_SQL: &'static str = "INSERT INTO peers(id, name, last_seen) VALUES(?1,?2,?3) ON CONFLICT(id) DO UPDATE SET name=?2, last_seen=?3";

pub const PEERS_SQL: &'static str = "SELECT id, name FROM peers";

// ---------------------------------------------------------------------------
// Directories
// ---------------------------------------------------------------------------

/// What it takes for a directory to be there.
#[derive(Debug, PartialEq, Eq)]
pub enum DirAction {
    Create,
    Keep,
    Refuse { message: String },
}

/// [`DirAction`] as the contracts speak of it.
#[verifier::ext_equal]
pub enum DirActionView {
    Create,
    Keep,
    Refuse { message: Seq<char> },
}

impl DeepView for DirAction {
    type V = DirActionView;

    open spec fn deep_view(&self) -> DirActionView {
        match self {
            DirAction::Create => DirActionView::Create,
            DirAction::Keep => DirActionView::Keep,
            DirAction::Refuse { message } => DirActionView::Refuse { message: message.deep_view() },
        }
    }
}

impl Clone for DirAction {
    fn clone(&self) -> (r: Self)
        ensures
            r.deep_view() == self.deep_view(),
    {
        match self {
            DirAction::Create => DirAction::Create,
            DirAction::Keep => DirAction::Keep,
            DirAction::Refuse { message } => DirAction::Refuse { message: message.clone() },
        }
    }
}

pub open spec fn dir_action(p: Seq<char>, exists: bool, is_dir: bool) -> DirActionView {
    if !exists {
        DirActionView::Create
    } else if !is_dir {
        DirActionView::Refuse { message: p + " 不是目录"@ }
    } else {
        DirActionView::Keep
    }
}

pub fn ensure_dir(p: &str, exists: bool, is_dir: bool) -> (r: DirAction)
    ensures
        r.deep_view() == dir_action(p@, exists, is_dir),
{
    if !exists {
        DirAction::Create
    } else if !is_dir {
        DirAction::Refuse { message: cat(p, " 不是目录") }
    } else {
        DirAction::Keep
    }
}

/// What the user is told when a directory cannot be made.
pub fn create_failed(p: &str) -> (r: String)
    ensures
        r@ == "创建目录 "@ + p@ + " 失败"@,
{
    cat3("创建目录 ", p, " 失败")
}

/// What is read from the history is what was stored there, message by
/// message.
pub proof fn law_history_reads_back(ms: Seq<ChatMessageView>)
    ensures
        messages_of(Seq::new(ms.len(), |i: int| (ms[i].id, row_of(ms[i])))) == ms,
{
    let rows = Seq::new(ms.len(), |i: int| (ms[i].id, row_of(ms[i])));
    assert forall|i: int| 0 <= i < ms.len() implies #[trigger] messages_of(rows)[i] == ms[i] by {
        law_row_reads_back(ms[i]);
    }
    assert(messages_of(rows) =~= ms);
}

/// A row holds of a message whom it was exchanged with, in which direction,
/// when, and what it says.
pub proof fn law_row_holds_the_message(m: ChatMessageView)
    ensures
        row_of(m).peer_id == m.peer_id,
        row_of(m).created_at == m.created_at,
        row_of(m).outgoing == 1 <==> m.outgoing,
        row_of(m).outgoing == 0 <==> !m.outgoing,
        m.kind is Text ==> row_of(m).kind == 0 && row_of(m).content == m.kind->Text_0,
        m.kind is File ==> row_of(m).kind == 1 && row_of(m).content == m.kind->name && row_of(
            m,
        ).file_path == m.kind->saved_path && row_of(m).transfer_id == m.kind->transfer_id
            && row_of(m).file_id == m.kind->file_id,
{
}

/// Marks in front of a text go, and only those.
pub proof fn law_only_marks_are_stripped(s: Seq<char>)
    ensures
        without_marks(s).len() <= s.len(),
        without_marks(s) == s.skip(s.len() - without_marks(s).len()),
        without_marks(s).len() > 0 ==> without_marks(s)[0] != '\u{feff}',
        forall|i: int| 0 <= i < s.len() - without_marks(s).len() ==> #[trigger] s[i] == '\u{feff}',
    decreases s.len(),
{
    if s.len() > 0 && s[0] == '\u{feff}' {
        let t = s.skip(1);
        law_only_marks_are_stripped(t);
        let n = without_marks(s).len();
        assert(t.skip(t.len() - n) =~= s.skip(s.len() - n));
        assert forall|i: int| 0 <= i < s.len() - n implies #[trigger] s[i] == '\u{feff}' by {
            if i > 0 {
                assert(t[i - 1] == s[i]);
            }
        }
    } else {
        assert(s.skip(0) =~= s);
    }
}

/// A directory is made where nothing is, kept where it is one, and never put
/// in the place of something else.
pub proof fn law_nothing_is_replaced_by_a_directory(p: Seq<char>, there: bool, is_dir: bool)
    ensures
        dir_action(p, there, is_dir) is Create <==> !there,
        dir_action(p, there, is_dir) is Keep <==> there && is_dir,
        dir_action(p, there, is_dir) is Refuse <==> there && !is_dir,
{
}

} // verus!

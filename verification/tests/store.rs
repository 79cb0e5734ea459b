use rusqlite::Connection;
use transfer_core::paths::System;
use transfer_core::proto::{ChatMessage, MessageKind};
use transfer_core::store::{
    create_failed, decode, default_download_dir, encode, ensure_dir, history, poetic_name,
    random_poetic_name, strip_marks, Config, DirAction, Row, CLEAR_SQL, DELETE_SQL, HISTORY_SQL,
    INSERT_SQL, PEERS_SQL, RECENT_SQL, SCHEMA, UPDATE_PATH_SQL, UPSERT_PEER_SQL,
};

fn mem_store() -> Connection {
    let conn = Connection::open_in_memory().unwrap();
    conn.execute_batch(SCHEMA).unwrap();
    conn
}

fn insert(conn: &Connection, m: &ChatMessage) -> i64 {
    let r = encode(m);
    conn.execute(
        INSERT_SQL,
        (
            r.peer_id,
            r.outgoing,
            r.kind,
            r.content,
            r.file_path,
            r.file_size,
            r.transfer_id,
            r.file_id,
            r.created_at,
        ),
    )
    .unwrap();
    conn.last_insert_rowid()
}

fn load(conn: &Connection, peer: &str, limit: i64) -> Vec<ChatMessage> {
    let mut stmt = conn.prepare(HISTORY_SQL).unwrap();
    let rows: Vec<(i64, Row)> = stmt
        .query_map((peer, limit), |r| {
            Ok((
                r.get(0)?,
                Row {
                    peer_id: r.get(1)?,
                    outgoing: r.get(2)?,
                    kind: r.get(3)?,
                    content: r.get(4)?,
                    file_path: r.get(5)?,
                    file_size: r.get(6)?,
                    transfer_id: r.get(7)?,
                    file_id: r.get(8)?,
                    created_at: r.get(9)?,
                },
            ))
        })
        .unwrap()
        .map(|r| r.unwrap())
        .collect();
    history(rows)
}

fn text(peer: &str, outgoing: bool, t: &str, at: i64) -> ChatMessage {
    ChatMessage {
        id: 0,
        peer_id: peer.to_string(),
        outgoing,
        kind: MessageKind::Text(t.to_string()),
        created_at: at,
    }
}

#[test]
fn text_roundtrip() {
    let s = mem_store();
    let id = insert(&s, &text("peer1", true, "hello", 1000));
    assert_eq!(id, 1);
    let id2 = insert(&s, &text("peer1", false, "world", 1001));
    assert_eq!(id2, 2);
    let h = load(&s, "peer1", 10);
    assert_eq!(h.len(), 2);
    assert_eq!(h[0].kind, MessageKind::Text("hello".to_string()));
    assert!(h[0].outgoing);
    assert!(!h[1].outgoing);
    let mut stmt = s.prepare(RECENT_SQL).unwrap();
    let peers: Vec<(String, i64)> = stmt
        .query_map((10i64,), |r| Ok((r.get(0)?, r.get(1)?)))
        .unwrap()
        .map(|r| r.unwrap())
        .collect();
    assert_eq!(peers.len(), 1);
    assert_eq!(peers[0].0, "peer1");
}

#[test]
fn file_roundtrip() {
    let s = mem_store();
    let id = insert(
        &s,
        &ChatMessage {
            id: 0,
            peer_id: "p".to_string(),
            outgoing: false,
            kind: MessageKind::File {
                name: "a.txt".to_string(),
                size: 12,
                saved_path: None,
                transfer_id: Some("t1".to_string()),
                file_id: Some("f1".to_string()),
            },
            created_at: 1,
        },
    );
    s.execute(UPDATE_PATH_SQL, ("D:/x/a.txt", id)).unwrap();
    let h = load(&s, "p", 10);
    match &h[0].kind {
        MessageKind::File { name, size, saved_path, transfer_id, file_id } => {
            assert_eq!(name, "a.txt");
            assert_eq!(*size, 12);
            assert_eq!(saved_path.as_deref(), Some("D:/x/a.txt"));
            assert_eq!(transfer_id.as_deref(), Some("t1"));
            assert_eq!(file_id.as_deref(), Some("f1"));
        }
        other => panic!("kind 不对: {:?}", other),
    }
}

#[test]
fn history_holds_the_newest_in_order() {
    let s = mem_store();
    for i in 0..5 {
        insert(&s, &text("p", true, &format!("{i}"), i));
    }
    insert(&s, &text("q", true, "other", 9));
    let h = load(&s, "p", 3);
    let ids: Vec<i64> = h.iter().map(|m| m.id).collect();
    assert_eq!(ids, vec![3, 4, 5]);
    assert_eq!(s.execute(DELETE_SQL, (4i64,)).unwrap(), 1);
    assert_eq!(load(&s, "p", 10).len(), 4);
    s.execute(CLEAR_SQL, ("p",)).unwrap();
    assert!(load(&s, "p", 10).is_empty());
    assert_eq!(load(&s, "q", 10).len(), 1);
}

#[test]
fn names_of_peers_are_replaced() {
    let s = mem_store();
    s.execute(UPSERT_PEER_SQL, ("a", "A", 1i64)).unwrap();
    s.execute(UPSERT_PEER_SQL, ("a", "A2", 2i64)).unwrap();
    let mut stmt = s.prepare(PEERS_SQL).unwrap();
    let names: Vec<(String, String)> = stmt
        .query_map([], |r| Ok((r.get(0)?, r.get(1)?)))
        .unwrap()
        .map(|r| r.unwrap())
        .collect();
    assert_eq!(names, vec![("a".to_string(), "A2".to_string())]);
}

#[test]
fn rows_read_back() {
    let m = ChatMessage {
        id: 7,
        peer_id: "p".to_string(),
        outgoing: true,
        kind: MessageKind::File {
            name: "大.bin".to_string(),
            size: u64::MAX,
            saved_path: Some("/d/大.bin".to_string()),
            transfer_id: None,
            file_id: None,
        },
        created_at: -3,
    };
    assert_eq!(decode(7, encode(&m)), m);
    assert_eq!(encode(&m).file_size, Some(-1));
}

#[test]
fn names_for_new_devices() {
    assert_eq!(poetic_name(0, 0), "温柔的山雀");
    assert_eq!(poetic_name(31, 31), "慢半拍的海风");
    assert_eq!(poetic_name(32, 34), "温柔的萤火");
    let n = random_poetic_name();
    assert!(n.contains('的'));
}

#[test]
fn download_directory() {
    let d = Some("/home/me/Downloads".to_string());
    let h = Some("/home/me".to_string());
    assert_eq!(
        default_download_dir(d, h.clone(), System::Unix),
        "/home/me/Downloads/LocalTransfer"
    );
    assert_eq!(default_download_dir(None, h, System::Unix), "/home/me/LocalTransfer");
    assert_eq!(default_download_dir(None, None, System::Unix), "./LocalTransfer");
}

#[test]
fn fresh_settings() {
    let c = Config::fresh("/d".to_string());
    assert_eq!(c.device_id.len(), 36);
    assert_eq!(c.http_port, 17878);
    assert_eq!(c.download_dir, "/d");
    assert!(!c.auto_receive);
    assert_eq!(c.close_action, "ask");
    assert_ne!(c.device_id, Config::fresh("/d".to_string()).device_id);
}

#[test]
fn marks_in_front_of_settings_go() {
    assert_eq!(strip_marks("\u{feff}\u{feff}{}"), "{}");
    assert_eq!(strip_marks("{\u{feff}}"), "{\u{feff}}");
}

#[test]
fn directories_are_made_or_refused() {
    assert_eq!(ensure_dir("/d", false, false), DirAction::Create);
    assert_eq!(ensure_dir("/d", true, true), DirAction::Keep);
    assert_eq!(
        ensure_dir("/d", true, false),
        DirAction::Refuse { message: "/d 不是目录".to_string() }
    );
    assert_eq!(create_failed("/d"), "创建目录 /d 失败");
}

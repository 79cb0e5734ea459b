use transfer_core::paths::System;
use transfer_core::proto::{
    Addr, CoreEvent, Device, DeviceInfo, FileMeta, MessageBody, MessageKind, PrepareBody,
};
use transfer_core::server::{
    failed, free_path, message_stored, target_path, Chunk, Decision, Fault, Receiving, Reply,
    ServerState, StallMonitor, StallOutcome, MAX_REQUEST_FILES, STALL_LIMIT,
};

fn info(id: &str) -> DeviceInfo {
    DeviceInfo {
        id: id.to_string(),
        name: id.to_uppercase(),
        plat: "linux".to_string(),
        port: 17878,
        v: 1,
    }
}

fn ip() -> Addr {
    Addr::V4(10, 0, 0, 2)
}

fn state() -> ServerState {
    ServerState::new(info("me"), "/dl".to_string(), System::Unix)
}

fn meta(id: &str, rel: &str, size: u64) -> FileMeta {
    FileMeta {
        id: id.to_string(),
        name: rel.rsplit('/').next().unwrap().to_string(),
        rel_path: rel.to_string(),
        size,
    }
}

fn files() -> Vec<FileMeta> {
    vec![meta("f1", "d/a", 4), meta("f2", "d/b", 2)]
}

fn peer() -> Device {
    Device { info: info("a"), addr: ip(), online: true, last_seen_ms: 5 }
}

fn reply(code: u16, text: &str) -> Reply {
    Reply { code, text: text.to_string() }
}

fn with_session() -> ServerState {
    let mut st = state();
    st.start_session("t", &peer(), files(), "/dl".to_string(), false, &vec![11, 12], 5);
    st
}

#[test]
fn message_is_taken_and_its_sender_noted() {
    let mut st = state();
    let body = MessageBody { sender: info("a"), text: " hi ".to_string(), sent_at: 3 };
    let (event, msg) = st.message(&body, ip(), 5).unwrap();
    assert_eq!(event, Some(CoreEvent::DeviceUp(peer())));
    assert_eq!(msg.kind, MessageKind::Text(" hi ".to_string()));
    assert_eq!(msg.created_at, 3);
    assert!(!msg.outgoing);
    match message_stored(msg, 9) {
        CoreEvent::Message { msg } => assert_eq!(msg.id, 9),
        other => panic!("{other:?}"),
    }
    let (event, _) = st.message(&body, ip(), 6).unwrap();
    assert_eq!(event, None);
}

#[test]
fn empty_and_own_messages_are_refused() {
    let mut st = state();
    let blank = MessageBody { sender: info("a"), text: " \n".to_string(), sent_at: 3 };
    assert_eq!(st.message(&blank, ip(), 5), Err(reply(400, "无效消息")));
    let own = MessageBody { sender: info("me"), text: "hi".to_string(), sent_at: 3 };
    assert_eq!(st.message(&own, ip(), 5), Err(reply(400, "无效消息")));
    assert!(st.registry.list().is_empty());
}

#[test]
fn request_waits_for_the_user() {
    let mut st = state();
    let body = PrepareBody { sender: info("a"), files: files() };
    let events = st.open_request_as("r", &body, ip(), 5).unwrap();
    assert_eq!(
        events,
        vec![
            CoreEvent::DeviceUp(peer()),
            CoreEvent::IncomingRequest { req_id: "r".to_string(), peer: peer(), files: files() },
        ]
    );
    let d = st.respond("r", true, None, true).unwrap();
    assert_eq!(d, Decision { accept: true, save_dir: None, overwrite: true });
    assert_eq!(st.respond("r", true, None, true), None);
    assert_eq!(st.decided("r", d), Ok("/dl".to_string()));
}

#[test]
fn requests_get_ids_of_their_own() {
    let mut st = state();
    let body = PrepareBody { sender: info("a"), files: files() };
    let (r1, _) = st.prepare(&body, ip(), 5).unwrap();
    let (r2, _) = st.prepare(&body, ip(), 5).unwrap();
    assert_eq!(r1.len(), 36);
    assert_ne!(r1, r2);
    assert!(st.respond(&r1, false, None, false).is_some());
    assert!(st.respond(&r2, false, None, false).is_some());
}

#[test]
fn bad_requests_are_refused() {
    let mut st = state();
    let none = PrepareBody { sender: info("a"), files: vec![] };
    assert_eq!(st.prepare(&none, ip(), 5), Err(reply(400, "文件列表为空")));
    let own = PrepareBody { sender: info("me"), files: files() };
    assert_eq!(st.prepare(&own, ip(), 5), Err(reply(400, "自己传自己？")));
    let escape = PrepareBody { sender: info("a"), files: vec![meta("f", "../x", 1)] };
    assert_eq!(st.prepare(&escape, ip(), 5), Err(reply(400, "包含不安全的相对路径")));
    let many: Vec<FileMeta> =
        (0..=MAX_REQUEST_FILES).map(|i| meta(&format!("{i}"), "x", 1)).collect();
    let many = PrepareBody { sender: info("a"), files: many };
    assert_eq!(st.prepare(&many, ip(), 5), Err(reply(400, "文件数过多")));
    assert!(st.registry.list().is_empty());
}

#[test]
fn refusals_and_timeouts_reach_the_sender() {
    let mut st = state();
    let body = PrepareBody { sender: info("a"), files: files() };
    st.open_request_as("r", &body, ip(), 5).unwrap();
    let no = Decision { accept: false, save_dir: None, overwrite: false };
    assert_eq!(st.decided("r", no), Err(reply(403, "对方拒绝了传输")));
    st.open_request_as("r", &body, ip(), 5).unwrap();
    assert_eq!(
        st.expire("r"),
        (
            CoreEvent::RequestExpired { req_id: "r".to_string() },
            reply(403, "等待确认超时")
        )
    );
    assert_eq!(st.respond("r", true, None, false), None);
    let elsewhere = Decision { accept: true, save_dir: Some("/x".to_string()), overwrite: false };
    assert_eq!(st.decided("r", elsewhere), Ok("/x".to_string()));
}

#[test]
fn session_begins_with_a_card_for_each_file() {
    let mut st = state();
    let events = st.start_session(
        "t",
        &peer(),
        files(),
        "/dl".to_string(),
        false,
        &vec![11, 12],
        5,
    );
    assert_eq!(events.len(), 3);
    match &events[1] {
        CoreEvent::Message { msg } => {
            assert_eq!(msg.id, 12);
            assert_eq!(
                msg.kind,
                MessageKind::File {
                    name: "b".to_string(),
                    size: 2,
                    saved_path: None,
                    transfer_id: Some("t".to_string()),
                    file_id: Some("f2".to_string()),
                }
            );
        }
        other => panic!("{other:?}"),
    }
    assert!(matches!(&events[2], CoreEvent::TransferStarted { outgoing: false, .. }));
    assert_eq!(ServerState::new_token().len(), 36);
}

#[test]
fn uploads_need_an_open_session() {
    let st = with_session();
    let job = st.begin_upload("t", "f2", false).unwrap();
    assert_eq!(job.meta, meta("f2", "d/b", 2));
    assert_eq!(job.save_dir, "/dl");
    assert_eq!(job.msg_id, Some(12));
    assert!(!job.overwrite);
    assert_eq!(st.begin_upload("x", "f1", false), Err(reply(404, "会话不存在或已结束")));
    assert_eq!(st.begin_upload("t", "f9", false), Err(reply(404, "文件 ID 无效")));
    assert_eq!(st.begin_upload("t", "f1", true), Err(reply(409, "传输已取消")));
}

#[test]
fn chunks_are_judged() {
    let mut r = Receiving::new("t", &meta("f1", "d/a", 4));
    assert_eq!(r.judge(&Chunk::Data { len: 4 }, false), None);
    assert_eq!(r.judge(&Chunk::Data { len: 5 }, false), Some(Fault::TooLong));
    assert_eq!(r.judge(&Chunk::Data { len: 1 }, true), Some(Fault::Cancelled));
    assert_eq!(
        r.judge(&Chunk::Broken { cause: "eof".to_string() }, false),
        Some(Fault::Broken { cause: "eof".to_string() })
    );
    assert_eq!(r.finished(), Err(reply(400, "大小不符：收到 0 / 声明 4")));
    assert_eq!(
        r.wrote(3, 1_000),
        Some(CoreEvent::FileProgress {
            transfer_id: "t".to_string(),
            file_id: "f1".to_string(),
            transferred: 3,
            total: 4,
            done: false,
            path: None,
        })
    );
    assert_eq!(r.wrote(1, 1_001), None);
    assert_eq!(r.finished(), Ok(()));
    assert_eq!(
        r.saved("/dl/d/a"),
        CoreEvent::FileProgress {
            transfer_id: "t".to_string(),
            file_id: "f1".to_string(),
            transferred: 4,
            total: 4,
            done: true,
            path: Some("/dl/d/a".to_string()),
        }
    );
}

#[test]
fn transfer_ends_with_its_last_file() {
    let mut st = with_session();
    assert_eq!(st.complete_file("t"), None);
    assert_eq!(
        st.complete_file("t"),
        Some(CoreEvent::TransferFinished { transfer_id: "t".to_string(), error: None })
    );
    assert_eq!(st.complete_file("t"), None);
    assert!(st.begin_upload("t", "f1", false).is_err());
}

#[test]
fn cancelled_upload_ends_the_transfer() {
    let mut st = with_session();
    let (event, r) = st.abort_upload("t", &Fault::Cancelled);
    assert_eq!(
        event,
        Some(CoreEvent::TransferFinished {
            transfer_id: "t".to_string(),
            error: Some("传输中断".to_string()),
        })
    );
    assert_eq!(r, reply(409, "已取消"));
    assert!(st.sessions.is_empty());
}

#[test]
fn broken_upload_ends_the_transfer() {
    let mut st = with_session();
    let receiving = Receiving::new("t", &meta("f1", "d/a", 4));
    let fault = receiving.judge(&Chunk::Broken { cause: "reset".to_string() }, false).unwrap();
    let (event, r) = st.abort_upload("t", &fault);
    assert_eq!(
        event,
        Some(CoreEvent::TransferFinished {
            transfer_id: "t".to_string(),
            error: Some("传输中断".to_string()),
        })
    );
    assert_eq!(r, reply(409, "网络中断: reset"));
    assert!(st.sessions.is_empty());
    assert_eq!(st.begin_upload("t", "f1", false), Err(reply(404, "会话不存在或已结束")));
    let (event, _) = st.abort_upload("t", &fault);
    assert_eq!(event, None);
}

#[test]
fn other_faults_leave_the_transfer_open() {
    let mut st = with_session();
    let (event, r) = st.abort_upload("t", &Fault::TooLong);
    assert_eq!(event, None);
    assert_eq!(r, reply(409, "数据超出声明大小"));
    let (event, r) = st.abort_upload("t", &Fault::Disk { cause: "full".to_string() });
    assert_eq!(event, None);
    assert_eq!(r, reply(409, "写盘失败: full"));
    assert!(st.begin_upload("t", "f1", false).is_ok());
}

#[test]
fn silent_transfer_is_given_up() {
    let mut st = with_session();
    let mut watch = StallMonitor::new();
    for _ in 1..STALL_LIMIT {
        assert_eq!(st.check_stall("t", &mut watch), StallOutcome::Wait);
    }
    assert_eq!(
        st.check_stall("t", &mut watch),
        StallOutcome::Dead(CoreEvent::TransferFinished {
            transfer_id: "t".to_string(),
            error: Some("传输超时中断".to_string()),
        })
    );
    assert!(st.sessions.is_empty());
}

#[test]
fn progress_keeps_a_transfer_alive() {
    let mut st = with_session();
    let mut watch = StallMonitor::new();
    for _ in 0..20 {
        st.add_progress("t", 1);
        assert_eq!(st.check_stall("t", &mut watch), StallOutcome::Wait);
    }
    st.cancel_local("t");
    assert_eq!(st.check_stall("t", &mut watch), StallOutcome::Stop);
}

#[test]
fn cancelling_from_either_side() {
    let mut st = with_session();
    assert_eq!(
        st.cancel_transfer("t"),
        Some(CoreEvent::TransferFinished {
            transfer_id: "t".to_string(),
            error: Some("对方取消了传输".to_string()),
        })
    );
    assert_eq!(st.cancel_transfer("t"), None);
    let mut st = with_session();
    assert_eq!(
        st.cancel_local("t"),
        Some(CoreEvent::TransferFinished {
            transfer_id: "t".to_string(),
            error: Some("已取消".to_string()),
        })
    );
    let mut st = with_session();
    assert_eq!(st.cancel_all(), vec!["t".to_string()]);
    assert!(st.sessions.is_empty());
}

#[test]
fn files_do_not_replace_others() {
    let m = meta("f", "d/a.txt", 1);
    let target = |overwrite: bool, taken: fn(&str) -> bool| {
        target_path("/dl", &m, overwrite, System::Unix, taken)
    };
    assert_eq!(target(false, |_p: &str| false).as_deref(), Ok("/dl/d/a.txt"));
    let taken = |p: &str| p == "/dl/d/a.txt" || p == "/dl/d/a (1).txt";
    assert_eq!(target(false, taken).as_deref(), Ok("/dl/d/a (2).txt"));
    assert_eq!(target(true, |_p: &str| true).as_deref(), Ok("/dl/d/a.txt"));
    assert_eq!(target(false, |_p: &str| true), Err("同名文件过多: d/a.txt".to_string()));
}

#[test]
fn targets_are_read_by_the_system() {
    let m = meta("f", r"d\a.txt", 1);
    let free = |_p: &str| false;
    assert_eq!(
        target_path("/dl", &m, false, System::Unix, free).as_deref(),
        Ok(r"/dl/d\a.txt")
    );
    assert_eq!(
        target_path(r"C:\dl", &m, false, System::Windows, free).as_deref(),
        Ok(r"C:\dl\d\a.txt")
    );
    let out = meta("f", r"\a.txt", 1);
    assert_eq!(
        target_path("/dl", &out, false, System::Unix, free).as_deref(),
        Ok(r"/dl/\a.txt")
    );
    assert_eq!(
        target_path(r"C:\dl", &out, false, System::Windows, free),
        Err(r"路径逃逸: \a.txt".to_string())
    );
}

#[test]
fn paths_that_leave_the_directory_are_refused() {
    let m = meta("f", "/etc/passwd", 1);
    assert_eq!(
        target_path("/dl", &m, false, System::Unix, |_p: &str| false),
        Err("路径逃逸: /etc/passwd".to_string())
    );
}

#[test]
fn free_names_are_counted() {
    let taken = |p: &str| p != "/d/a (3)";
    assert_eq!(free_path("/d/a", "f", 9, System::Unix, taken).as_deref(), Some("/d/a (3)"));
    assert_eq!(free_path("/d/a", "f", 2, System::Unix, taken), None);
}

#[test]
fn failures_are_answered() {
    assert_eq!(failed("落盘失败: ", "full"), reply(500, "落盘失败: full"));
}

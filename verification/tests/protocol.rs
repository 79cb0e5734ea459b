//! Two devices talk to each other, with the network and the disk left out.

use transfer_core::client::{
    collect_files, metas, probe_info, send_finished, FsEntry, FsNode, HttpReply, PrepareReply,
    SendFlow, SendStep, UploadReply,
};
use transfer_core::discovery::{on_packet, ReplyLog};
use transfer_core::engine::{connect_target, identity, Action, Engine};
use transfer_core::paths::System;
use transfer_core::proto::{
    Addr, ChatMessage, CoreEvent, DiscoveryPacket, FileMeta, MessageBody, MessageKind, PrepareBody,
    UiCommand,
};
use transfer_core::server::{message_stored, target_path, Chunk, Receiving};
use transfer_core::store::Config;
use transfer_core::web::{
    download, list, message, messages, page, remove, upload, upload_chunk, uploaded, web_offer,
    SinceParams, UploadParams, WebTextBody,
};

fn test_config(name: &str, port: u16) -> Config {
    let mut c = Config::fresh(format!("/tmp/lt-it-{name}"));
    c.device_name = name.to_string();
    c.http_port = port;
    c
}

fn start(name: &str, port: u16) -> Engine {
    let c = test_config(name, port);
    Engine::new(identity(&c, "linux"), c.download_dir, System::Unix)
}

fn loopback() -> Addr {
    Addr::V4(127, 0, 0, 1)
}

fn hear(who: &mut Engine, of: &Engine, log: &mut ReplyLog) -> Option<CoreEvent> {
    let me = who.server.me.clone();
    let packet = DiscoveryPacket::Announce { info: of.server.me.clone() };
    on_packet(&mut who.server.registry, log, &me, packet, loopback(), 1).event
}

fn file(path: &str, size: u64) -> FsEntry {
    FsEntry { path: path.to_string(), node: FsNode::File { size } }
}

fn dir(path: &str, entries: Vec<FsEntry>) -> FsEntry {
    FsEntry { path: path.to_string(), node: FsNode::Dir { entries } }
}

/// Offers the files to the other side and gives its request and events.
fn request(a: &Engine, b: &mut Engine, files: &Vec<(FileMeta, String)>) -> (String, Vec<CoreEvent>) {
    let body = PrepareBody { sender: a.server.me.clone(), files: metas(files) };
    b.server.prepare(&body, loopback(), 5).unwrap()
}

#[test]
fn discovery_text_file_roundtrip() {
    let mut a = start("IT-A", 55711);
    let mut b = start("IT-B", 55712);
    let id_a = a.server.me.id.clone();
    let id_b = b.server.me.id.clone();

    let up = hear(&mut a, &b, &mut ReplyLog::new());
    assert!(matches!(up, Some(CoreEvent::DeviceUp(d)) if d.info.id == id_b));
    let up = hear(&mut b, &a, &mut ReplyLog::new());
    assert!(matches!(up, Some(CoreEvent::DeviceUp(d)) if d.info.id == id_a));

    let cmd = UiCommand::SendText { peer_id: id_b.clone(), text: "你好 B".to_string() };
    let (_, action) = a.on_command(cmd, 2);
    let Action::SendText { msg, base, sender } = action else {
        panic!("nothing to send");
    };
    assert_eq!(base, "http://127.0.0.1:55712");
    let echo = message_stored(msg.clone(), 1);
    assert!(matches!(
        echo,
        CoreEvent::Message { msg } if msg.outgoing && msg.kind == MessageKind::Text("你好 B".to_string())
    ));
    let body = MessageBody { sender, text: "你好 B".to_string(), sent_at: msg.created_at };
    let (_, got) = b.server.message(&body, loopback(), 3).unwrap();
    assert!(matches!(
        message_stored(got, 1),
        CoreEvent::Message { msg } if !msg.outgoing && msg.kind == MessageKind::Text("你好 B".to_string())
    ));

    let src = "/tmp/lt-it-src-77";
    let tree = dir(
        src,
        vec![
            file(&format!("{src}/hello.txt"), 19),
            dir(&format!("{src}/sub"), vec![file(&format!("{src}/sub/data.bin"), 300_000)]),
        ],
    );
    let cmd = UiCommand::SendFiles { peer_id: id_b, paths: vec![src.to_string()] };
    let (_, action) = a.on_command(cmd, 4);
    let Action::SendFiles { transfer_id, base, peer_id, peer_name, .. } = action else {
        panic!("nothing to send");
    };
    let files = collect_files(&vec![tree], System::Unix).unwrap();
    let (req_id, events) = request(&a, &mut b, &files);
    let Some(CoreEvent::IncomingRequest { peer, files: asked, .. }) = events.last() else {
        panic!("no request");
    };
    assert_eq!(asked.len(), 2, "文件夹应展开为 2 个文件");

    let save_dir = "/tmp/lt-it-recv-77".to_string();
    let cmd = UiCommand::RespondRequest {
        req_id: req_id.clone(),
        accept: true,
        save_dir: Some(save_dir.clone()),
        overwrite: false,
    };
    let (_, action) = b.on_command(cmd, 6);
    let Action::Decide { decision, .. } = action else {
        panic!("nobody waits");
    };
    let save_dir = b.server.decided(&req_id, decision).unwrap();
    assert_eq!(save_dir, "/tmp/lt-it-recv-77");
    let ids = vec![1, 2];
    b.server.start_session("tok", peer, asked.clone(), save_dir, false, &ids, 7);

    let mut flow = SendFlow {
        base,
        transfer_id: transfer_id.clone(),
        peer_id,
        peer_name,
        files,
        token: String::new(),
        next: 0,
    };
    let ok = PrepareReply::Reply {
        code: 200,
        text: "200 OK".to_string(),
        token: Some("tok".to_string()),
    };
    let mut step = flow.on_prepare(ok, false);
    let mut saved: Vec<String> = vec![];
    let mut finished = None;
    while let SendStep::Upload { index, url, .. } = step {
        let meta = flow.files[index].0.clone();
        assert_eq!(url, format!("http://127.0.0.1:55712/api/transfer/upload/tok/{}", meta.id));
        let job = b.server.begin_upload("tok", &meta.id, false).unwrap();
        let free = |_p: &str| false;
        let path =
            target_path(&job.save_dir, &job.meta, job.overwrite, System::Unix, free).unwrap();
        let mut r = Receiving::new("tok", &job.meta);
        assert_eq!(r.judge(&Chunk::Data { len: meta.size }, false), None);
        r.wrote(meta.size, 8);
        b.server.add_progress("tok", meta.size);
        assert_eq!(r.finished(), Ok(()));
        assert!(matches!(r.saved(&path), CoreEvent::FileProgress { done: true, path: Some(_), .. }));
        saved.push(path);
        finished = b.server.complete_file("tok");
        step = flow.on_upload(
            UploadReply::Reply { code: 200, text: "200 OK".to_string() },
            false,
        );
    }
    assert_eq!(step, SendStep::Done);
    assert!(matches!(
        send_finished(&transfer_id, None, false),
        CoreEvent::TransferFinished { error: None, .. }
    ));
    assert!(matches!(finished, Some(CoreEvent::TransferFinished { error: None, .. })));
    assert_eq!(
        saved,
        vec![
            "/tmp/lt-it-recv-77/lt-it-src-77/hello.txt",
            "/tmp/lt-it-recv-77/lt-it-src-77/sub/data.bin",
        ]
    );
}

#[test]
fn prepare_rejected() {
    let mut a = start("IT-RJ-A", 55721);
    let mut b = start("IT-RJ-B", 55722);
    hear(&mut a, &b, &mut ReplyLog::new());

    let files = collect_files(&vec![file("/tmp/lt-it-rj-1.txt", 1)], System::Unix).unwrap();
    let (req_id, _) = request(&a, &mut b, &files);
    let cmd = UiCommand::RespondRequest {
        req_id: req_id.clone(),
        accept: false,
        save_dir: None,
        overwrite: false,
    };
    let Action::Decide { decision, .. } = b.on_command(cmd, 6).1 else {
        panic!("nobody waits");
    };
    let refused = b.server.decided(&req_id, decision).unwrap_err();
    let mut flow = SendFlow {
        base: "http://127.0.0.1:55722".to_string(),
        transfer_id: "x".to_string(),
        peer_id: b.server.me.id.clone(),
        peer_name: "IT-RJ-B".to_string(),
        files,
        token: String::new(),
        next: 0,
    };
    let reply = PrepareReply::Reply { code: refused.code, text: refused.text, token: None };
    let SendStep::Abort { notify, reason } = flow.on_prepare(reply, false) else {
        panic!("not refused");
    };
    assert_eq!(notify, None);
    assert!(matches!(
        send_finished("x", Some(reason), false),
        CoreEvent::TransferFinished { error: Some(reason), .. } if reason.contains("拒绝")
    ));
}

#[test]
fn connect_peer_by_ip() {
    let mut a = start("IT-CP-A", 55731);
    let b = start("IT-CP-B", 55732);
    let id_b = b.server.me.id.clone();

    let cmd = UiCommand::ConnectPeer { host: "127.0.0.1:55732".to_string() };
    let Action::Connect { host } = a.on_command(cmd, 1).1 else {
        panic!("nothing to ask");
    };
    let target = connect_target(&host, None).unwrap();
    let ok = HttpReply::Status { code: 200, text: "200 OK".to_string() };
    let answer = probe_info(&ok, Some(b.server.me.clone()), "");
    let events = a.on_probe(&target, answer, 2);
    assert!(events
        .iter()
        .any(|e| matches!(e, CoreEvent::DeviceUp(d) if d.info.id == id_b && d.online)));

    let cmd = UiCommand::ConnectPeer { host: "abc".to_string() };
    let Action::Connect { host } = a.on_command(cmd, 3).1 else {
        panic!("nothing to ask");
    };
    assert!(matches!(
        connect_target(&host, None),
        Err(CoreEvent::Error { context, .. }) if context == "添加设备"
    ));
}

#[test]
fn web_offer_list_and_download() {
    let mut a = start("IT-WEB-A", 55741);
    let single = collect_files(&vec![file("/tmp/lt-it-web-1.bin", 12345)], System::Unix).unwrap();
    let msgs = web_offer(&mut a.server, &single, 1);
    assert!(msgs
        .iter()
        .any(|m| m.outgoing && matches!(&m.kind, MessageKind::File { size: 12345, .. })));

    let d = "/tmp/lt-it-webf-1";
    let tree = dir(
        d,
        vec![
            file(&format!("{d}/a.txt"), 2),
            dir(&format!("{d}/sub"), vec![file(&format!("{d}/sub/b.txt"), 2)]),
        ],
    );
    let msgs = web_offer(&mut a.server, &collect_files(&vec![tree], System::Unix).unwrap(), 2);
    let tid_of = |name: &str| -> String {
        msgs.iter()
            .find_map(|m| match &m.kind {
                MessageKind::File { name: n, transfer_id: Some(t), .. } if n == name => {
                    Some(t.clone())
                }
                _ => None,
            })
            .unwrap_or_default()
    };
    let (tid1, tid2) = (tid_of("a.txt"), tid_of("b.txt"));
    assert!(
        !tid1.is_empty() && tid1 == tid2,
        "同批文件应共用 transfer_id: {tid1} vs {tid2}"
    );

    assert!(page("IT-WEB-A").contains("网页客户端"));

    let offers = list(&a.server);
    let id = offers[0].id.clone();
    assert_eq!(offers[0].size, 12345);
    let (_, path) = download(&a.server, &id).unwrap();
    assert_eq!(path, "/tmp/lt-it-web-1.bin");

    remove(&mut a.server, &id).unwrap();
    assert_eq!(download(&a.server, &id).unwrap_err().code, 404);
}

#[test]
fn web_chat_text_and_upload() {
    let mut a = start("IT-WEB2-A", 55751);
    let mut history: Vec<ChatMessage> = vec![];
    let mut store = |m: ChatMessage| {
        let id = history.len() as i64 + 1;
        let CoreEvent::Message { msg } = message_stored(m, id) else {
            panic!("not a message");
        };
        history.push(msg.clone());
        msg
    };

    let (_, action) = a.on_command(UiCommand::WebText { text: "你好网页".to_string() }, 1);
    let Action::StoreMessage { msg } = action else {
        panic!("nothing to store");
    };
    let m = store(msg);
    assert!(m.outgoing && matches!(&m.kind, MessageKind::Text(t) if t == "你好网页"));

    store(message(&WebTextBody { text: "来自浏览器".to_string() }, 2).unwrap());

    let p = UploadParams {
        name: Some("文件.txt".to_string()),
        rel: Some("photos/文件.txt".to_string()),
        batch: None,
    };
    let target = upload(&p, &a.server.download_dir, System::Unix).unwrap();
    assert_eq!(target, "/tmp/lt-it-IT-WEB2-A/网页上传/photos/文件.txt");
    let written = upload_chunk(0, 777).unwrap();
    let m = store(uploaded(&target, &p, written, 3, System::Unix));
    assert!(!m.outgoing && matches!(&m.kind, MessageKind::File { size: 777, .. }));

    let seen = messages(&a.server, &history, &SinceParams { since: Some(0) });
    assert_eq!(seen.len(), 3);
    assert_eq!(seen[2].kind, "file");
    assert_eq!(seen[2].size, 777);
    assert_eq!(seen[2].rel, "photos/文件.txt");
}

use transfer_core::paths::System;
use transfer_core::proto::{ChatMessage, DeviceInfo, FileMeta, MessageKind, WEB_PEER_ID};
use transfer_core::server::{Reply, ServerState};
use transfer_core::web::{
    delete_messages, download, download_disposition, download_zip, fill_page, free_upload_path,
    html_escape, list, message, messages, offer_as, page, percent_encode, remove, upload,
    upload_chunk, uploaded, web_offer, web_text, zip_disposition, DeleteMessagesBody, SinceParams,
    UploadParams, WebTextBody, OFFER_LIMIT, WEB_UPLOAD_MAX,
};

fn state() -> ServerState {
    let me = DeviceInfo {
        id: "me".to_string(),
        name: "Me".to_string(),
        plat: "linux".to_string(),
        port: 17878,
        v: 1,
    };
    ServerState::new(me, "/dl".to_string(), System::Unix)
}

fn file(rel: &str, size: u64) -> (FileMeta, String) {
    (
        FileMeta {
            id: "x".to_string(),
            name: rel.rsplit('/').next().unwrap().to_string(),
            rel_path: rel.to_string(),
            size,
        },
        format!("/src/{rel}"),
    )
}

fn reply(code: u16, text: &str) -> Reply {
    Reply { code, text: text.to_string() }
}

fn params(name: Option<&str>, rel: Option<&str>) -> UploadParams {
    UploadParams {
        name: name.map(|s| s.to_string()),
        rel: rel.map(|s| s.to_string()),
        batch: None,
    }
}

#[test]
fn escaped_text_is_inert() {
    assert_eq!(
        html_escape("<a href=\"x\">&amp;</a>"),
        "&lt;a href=&quot;x&quot;&gt;&amp;amp;&lt;/a&gt;"
    );
}

#[test]
fn escaped_text_reads_back() {
    let s = "&lt; <\"&\"> &&amp;";
    let e = html_escape(s);
    let undone =
        e.replace("&lt;", "<").replace("&gt;", ">").replace("&quot;", "\"").replace("&amp;", "&");
    assert_eq!(undone, s);
    assert_eq!(e, html_escape("&lt; <\"") + &html_escape("&\"> &&amp;"));
}

#[test]
fn uploads_get_free_names() {
    let sys = System::Unix;
    assert_eq!(
        free_upload_path("/dl/a.txt", sys, |_p: &str| false),
        Ok("/dl/a.txt".to_string())
    );
    assert_eq!(
        free_upload_path("/dl/a.txt", sys, |p: &str| p == "/dl/a.txt" || p == "/dl/a (1).txt"),
        Ok("/dl/a (2).txt".to_string())
    );
    assert_eq!(
        free_upload_path("/dl/a", sys, |p: &str| p != "/dl/a (9998)"),
        Ok("/dl/a (9998)".to_string())
    );
    assert_eq!(
        free_upload_path("/dl/a", sys, |p: &str| p != "/dl/a (9999)"),
        Err(reply(409, "同名文件过多"))
    );
}

#[test]
fn page_holds_the_name() {
    assert_eq!(fill_page("<b>__DEVICE_NAME__</b>", "A<B"), "<b>A&lt;B</b>");
    let html = page("A<B");
    assert!(html.contains("A&lt;B") && !html.contains("__DEVICE_NAME__"));
    assert!(html.contains("/api/web/messages") && html.ends_with("</html>\n"));
}

#[test]
fn percent_encoding() {
    assert_eq!(percent_encode("a-b_c.d~9"), "a-b_c.d~9");
    assert_eq!(percent_encode("a b"), "a%20b");
    assert_eq!(percent_encode("文件"), "%E6%96%87%E4%BB%B6");
    assert_eq!(percent_encode("\u{7f}é😀"), "%7F%C3%A9%F0%9F%98%80");
    assert_eq!(percent_encode("a b") + &percent_encode("文件"), percent_encode("a b文件"));
}

#[test]
fn names_in_headers() {
    assert_eq!(
        download_disposition("a\"b\nc.txt"),
        "attachment; filename=\"a_b_c.txt\"; filename*=UTF-8''a%22b%0Ac.txt"
    );
    assert_eq!(
        zip_disposition("照片"),
        "attachment; filename=\"照片.zip\"; filename*=UTF-8''%E7%85%A7%E7%89%87.zip"
    );
}

#[test]
fn published_files_share_a_batch() {
    let mut st = state();
    let msgs = web_offer(&mut st, &vec![file("d/a.txt", 1), file("d/sub/b.txt", 2)], 7);
    assert_eq!(msgs.len(), 2);
    let tids: Vec<String> = msgs
        .iter()
        .map(|m| match &m.kind {
            MessageKind::File { transfer_id: Some(t), .. } => t.clone(),
            _ => String::new(),
        })
        .collect();
    assert_eq!(tids[0].len(), 36);
    assert_eq!(tids[0], tids[1]);
    assert_ne!(st.offers[0].id, st.offers[1].id);
    assert_eq!(st.offers[1].rel, "d/sub/b.txt");
    let (folder, entries) = download_zip(&st, &tids[0]).unwrap();
    assert_eq!(folder, "d");
    assert_eq!(
        entries,
        vec![
            ("d/a.txt".to_string(), "/src/d/a.txt".to_string()),
            ("d/sub/b.txt".to_string(), "/src/d/sub/b.txt".to_string()),
        ]
    );
    assert_eq!(
        download_zip(&st, "none"),
        Err(reply(404, "没有可下载的文件（可能已失效）"))
    );
}

#[test]
fn old_offers_make_room() {
    let mut st = state();
    let files: Vec<(FileMeta, String)> = (0..OFFER_LIMIT + 2).map(|i| file("a", i as u64)).collect();
    let ids: Vec<String> = (0..files.len()).map(|i| format!("{i}")).collect();
    let msgs = offer_as(&mut st, &files, &ids, "b", 7);
    assert_eq!(msgs.len(), OFFER_LIMIT + 2);
    assert_eq!(st.offers.len(), OFFER_LIMIT);
    assert_eq!(st.offers[0].id, "2");
}

#[test]
fn offers_are_listed_and_removed() {
    let mut st = state();
    offer_as(&mut st, &vec![file("a.bin", 12345)], &vec!["o1".to_string()], "b", 7);
    let l = list(&st);
    assert_eq!(l.len(), 1);
    assert_eq!(l[0].id, "o1");
    assert_eq!(l[0].size, 12345);
    assert_eq!(download(&st, "o1"), Ok(("a.bin".to_string(), "/src/a.bin".to_string())));
    assert_eq!(remove(&mut st, "o1"), Ok(()));
    assert_eq!(remove(&mut st, "o1"), Err(reply(404, "不存在")));
    assert_eq!(download(&st, "o1"), Err(reply(404, "文件不存在或已被移除")));
}

#[test]
fn removing_an_offer_keeps_the_others() {
    let mut st = state();
    let ids = vec!["o1".to_string(), "o2".to_string(), "o3".to_string()];
    let files = vec![file("a.bin", 1), file("b.bin", 2), file("c.bin", 3)];
    offer_as(&mut st, &files, &ids, "b", 7);
    assert_eq!(remove(&mut st, "o2"), Ok(()));
    assert_eq!(download(&st, "o1"), Ok(("a.bin".to_string(), "/src/a.bin".to_string())));
    assert!(download(&st, "o2").is_err());
    assert_eq!(download(&st, "o3"), Ok(("c.bin".to_string(), "/src/c.bin".to_string())));
}

fn stored(id: i64, kind: MessageKind) -> ChatMessage {
    ChatMessage {
        id,
        peer_id: WEB_PEER_ID.to_string(),
        outgoing: false,
        kind,
        created_at: id * 10,
    }
}

#[test]
fn browsers_see_what_is_new() {
    let mut st = state();
    offer_as(&mut st, &vec![file("d/a.bin", 5)], &vec!["o1".to_string()], "b", 7);
    let offered = |fid: &str, path: &str| MessageKind::File {
        name: "a.bin".to_string(),
        size: 5,
        saved_path: Some(path.to_string()),
        transfer_id: Some("b".to_string()),
        file_id: Some(fid.to_string()),
    };
    let history = vec![
        stored(1, MessageKind::Text("old".to_string())),
        stored(2, MessageKind::Text("new".to_string())),
        stored(3, offered("o1", "/src/d/a.bin")),
        stored(4, offered("gone", "/src/d/a.bin")),
        stored(5, offered("gone", "/dl/网页上传/p/a.bin")),
    ];
    let out = messages(&st, &history, &SinceParams { since: Some(1) });
    assert_eq!(out.len(), 4);
    assert_eq!((out[0].kind.as_str(), out[0].text.as_str()), ("text", "new"));
    assert_eq!(out[1].kind, "file");
    assert_eq!(out[1].rel, "d/a.bin");
    assert_eq!(out[1].offer, "o1");
    assert_eq!(out[1].tid, "b");
    assert_eq!(out[2].rel, "");
    assert_eq!(out[2].offer, "");
    assert_eq!(out[3].rel, "p/a.bin");
    assert_eq!(messages(&st, &history, &SinceParams { since: None }).len(), 5);
}

#[test]
fn texts_from_browsers() {
    let m = message(&WebTextBody { text: " 来自浏览器 ".to_string() }, 7).unwrap();
    assert_eq!(m.kind, MessageKind::Text("来自浏览器".to_string()));
    assert_eq!(m.peer_id, WEB_PEER_ID);
    assert!(!m.outgoing);
    assert_eq!(
        message(&WebTextBody { text: "  ".to_string() }, 7),
        Err(reply(400, "空消息"))
    );
    assert!(web_text("你好", 7).outgoing);
}

#[test]
fn uploads_stay_in_their_directory() {
    let target = |name: Option<&str>, rel: Option<&str>| {
        upload(&params(name, rel), "/dl", System::Unix)
    };
    assert_eq!(
        target(Some("a.txt"), Some("photos/a.txt")).as_deref(),
        Ok("/dl/网页上传/photos/a.txt")
    );
    assert_eq!(
        target(Some("a.txt"), Some("../..\\C:/./x//a.txt")).as_deref(),
        Ok("/dl/网页上传/x/a.txt")
    );
    assert_eq!(target(Some("a.txt"), None).as_deref(), Ok("/dl/网页上传/a.txt"));
    assert_eq!(target(None, None).as_deref(), Ok("/dl/网页上传/file"));
    assert_eq!(target(None, Some("../..")), Err(reply(400, "非法路径")));
    assert_eq!(
        upload(&params(None, Some("photos/a.txt")), r"C:\dl", System::Windows).as_deref(),
        Ok(r"C:\dl\网页上传\photos/a.txt")
    );
}

#[test]
fn uploads_have_a_limit() {
    assert_eq!(upload_chunk(WEB_UPLOAD_MAX - 1, 1), Ok(WEB_UPLOAD_MAX));
    assert_eq!(upload_chunk(WEB_UPLOAD_MAX, 1), Err(reply(413, "文件过大")));
    assert_eq!(upload_chunk(WEB_UPLOAD_MAX, u64::MAX), Err(reply(413, "文件过大")));
}

#[test]
fn finished_upload_becomes_a_message() {
    let mut p = params(Some("a.txt"), None);
    p.batch = Some("b1".to_string());
    let m = uploaded("/dl/网页上传/a (1).txt", &p, 777, 7, System::Unix);
    assert_eq!(
        m.kind,
        MessageKind::File {
            name: "a (1).txt".to_string(),
            size: 777,
            saved_path: Some("/dl/网页上传/a (1).txt".to_string()),
            transfer_id: Some("b1".to_string()),
            file_id: None,
        }
    );
    match uploaded("/dl/x", &params(None, None), 1, 7, System::Unix).kind {
        MessageKind::File { transfer_id: Some(t), .. } => assert_eq!(t.len(), 36),
        other => panic!("{other:?}"),
    }
}

#[test]
fn nothing_to_delete() {
    assert_eq!(delete_messages(&DeleteMessagesBody { ids: vec![] }), None);
    assert_eq!(delete_messages(&DeleteMessagesBody { ids: vec![1, 2] }), Some(vec![1, 2]));
}

use transfer_core::paths::System;
use transfer_core::proto::{
    Addr, ChatMessage, CoreEvent, Device, DeviceInfo, FileMeta, MessageKind, UiCommand, WEB_PEER_ID,
};
use transfer_core::store::Config;
use transfer_core::textmap::TextMap;
use transfer_core::ui::{
    check_conflicts, conflicts, parse_port, short_id, IncomingReq, UiEffect, UiState,
    TRANSFER_LIMIT,
};

fn device(id: &str, name: &str, seen: i64) -> Device {
    Device {
        info: DeviceInfo {
            id: id.to_string(),
            name: name.to_string(),
            plat: "linux".to_string(),
            port: 99,
            v: 1,
        },
        addr: Addr::V4(10, 0, 0, 2),
        online: true,
        last_seen_ms: seen,
    }
}

fn ui() -> UiState {
    UiState::new(Config::fresh("/dl".to_string()), TextMap::new(), System::Unix)
}

fn text(id: i64, peer: &str, t: &str) -> ChatMessage {
    ChatMessage {
        id,
        peer_id: peer.to_string(),
        outgoing: false,
        kind: MessageKind::Text(t.to_string()),
        created_at: id,
    }
}

fn meta(id: &str, rel: &str, size: u64) -> FileMeta {
    FileMeta {
        id: id.to_string(),
        name: rel.rsplit('/').next().unwrap().to_string(),
        rel_path: rel.to_string(),
        size,
    }
}

fn request(id: &str, from: &str) -> IncomingReq {
    IncomingReq {
        req_id: id.to_string(),
        peer: device(from, "A", 0),
        files: vec![meta("f1", "a.txt", 1), meta("f2", "b.txt", 1)],
    }
}

fn event(u: &mut UiState, ev: CoreEvent, foreground: bool) -> Vec<UiEffect> {
    u.on_core_event(ev, foreground, 1_000, 1_000_000_000)
}

fn started(u: &mut UiState, id: &str, outgoing: bool) -> Vec<UiEffect> {
    let sources = if outgoing {
        vec!["/s/a".to_string(), String::new()]
    } else {
        vec![]
    };
    event(
        u,
        CoreEvent::TransferStarted {
            transfer_id: id.to_string(),
            peer_id: "a".to_string(),
            peer_name: "A".to_string(),
            outgoing,
            files: vec![meta("f1", "d/a", 100), meta("f2", "d/b", 50)],
            sources,
            save_dir: None,
        },
        true,
    )
}

#[test]
fn first_device_is_opened() {
    let mut u = ui();
    let effects = event(&mut u, CoreEvent::DeviceUp(device("a", "A", 1)), true);
    assert_eq!(u.selected.as_deref(), Some("a"));
    assert_eq!(u.peer_name("a"), "A");
    assert!(effects.contains(&UiEffect::UpsertPeer { id: "a".to_string(), name: "A".to_string() }));
    assert!(effects.contains(&UiEffect::LoadHistory { peer: "a".to_string() }));
    event(&mut u, CoreEvent::DeviceUp(device("b", "B", 2)), true);
    assert_eq!(u.selected.as_deref(), Some("a"));
    assert_eq!(u.devices[0].info.id, "b");
}

#[test]
fn names_outlive_devices() {
    let mut names: TextMap<String> = TextMap::new();
    names.insert("old", "Old".to_string());
    let u = UiState::new(Config::fresh("/dl".to_string()), names, System::Unix);
    assert_eq!(u.peer_name("old"), "Old");
    assert_eq!(u.peer_name("0123456789"), "01234567");
    assert_eq!(short_id("abc"), "abc");
}

#[test]
fn messages_that_nobody_saw_are_counted() {
    let mut u = ui();
    u.device_up(device("a", "A", 1));
    u.device_up(device("b", "B", 2));
    event(&mut u, CoreEvent::Message { msg: text(1, "a", "seen") }, true);
    assert_eq!(u.unread_count("a"), 0);
    let effects = event(&mut u, CoreEvent::Message { msg: text(2, "b", "unseen") }, true);
    assert_eq!(u.unread_count("b"), 1);
    assert_eq!(effects, vec![UiEffect::SetUnread(true)]);
    let effects = event(&mut u, CoreEvent::Message { msg: text(3, "a", &"x".repeat(50)) }, false);
    assert_eq!(u.unread_count("a"), 1);
    assert!(effects.contains(&UiEffect::Notify { title: "A".to_string(), body: "x".repeat(40) }));
    assert!(effects.contains(&UiEffect::FlashTaskbar));
    let effects = u.select_peer("b");
    assert_eq!(u.unread_count("b"), 0);
    assert!(effects.contains(&UiEffect::SetUnread(true)));
}

#[test]
fn unread_of_absent_devices_is_not_marked() {
    let mut u = ui();
    u.device_up(device("a", "A", 1));
    u.device_up(device("b", "B", 2));
    u.message_received(text(1, "b", "x"), true);
    assert!(u.visible_unread());
    assert_eq!(u.device_down("b"), vec![UiEffect::SetUnread(false)]);
    assert!(!u.visible_unread());
    u.device_up(device("b", "B", 3));
    assert!(u.visible_unread());
    let mut w = ui();
    w.message_received(text(1, WEB_PEER_ID, "x"), true);
    assert!(w.visible_unread());
}

#[test]
fn history_is_read_once() {
    let mut u = ui();
    let effects = u.select_peer("a");
    assert!(effects.contains(&UiEffect::LoadHistory { peer: "a".to_string() }));
    u.history_loaded("a", vec![text(1, "a", "x")]);
    u.select_peer("b");
    let effects = u.select_peer("a");
    assert!(!effects.contains(&UiEffect::LoadHistory { peer: "a".to_string() }));
    assert_eq!(u.chats.get("a").unwrap().len(), 1);
    assert!(u.select_peer("a").is_empty());
}

#[test]
fn requests_wait_side_by_side() {
    let mut u = ui();
    let effects = u.request_received(request("r1", "a"), false, 5);
    assert!(effects.contains(&UiEffect::Notify {
        title: "A 想发送文件".to_string(),
        body: "2 个文件 · 点击处理".to_string(),
    }));
    u.request_received(request("r2", "b"), true, 5);
    assert_eq!(u.incoming.len(), 2);
    assert_eq!(u.selected.as_deref(), Some("b"));
    event(&mut u, CoreEvent::RequestExpired { req_id: "r1".to_string() }, true);
    assert_eq!(u.incoming.len(), 1);
    assert!(u.find_request("r2").is_some());
}

#[test]
fn requests_are_taken_by_themselves() {
    let mut u = ui();
    u.set_auto_receive(true);
    let effects = u.request_received(request("r1", "a"), true, 5);
    assert_eq!(
        effects,
        vec![UiEffect::Send(UiCommand::RespondRequest {
            req_id: "r1".to_string(),
            accept: true,
            save_dir: None,
            overwrite: false,
        })]
    );
    assert!(u.incoming.is_empty());
    assert_eq!(u.toast.as_ref().unwrap().text, "自动接收 A 的 2 个文件");
}

#[test]
fn files_in_the_way_are_asked_about() {
    let mut u = ui();
    u.request_received(request("r1", "a"), true, 5);
    let taken = |p: &str| p == "/dl/b.txt";
    assert!(u.ask_overwrite("r1", taken).is_empty());
    let req = u.overwrite_req.clone().unwrap();
    let there = check_conflicts(&req.files, "/dl", System::Unix, taken);
    assert_eq!(conflicts(&req.files, &there), vec!["b.txt"]);
    let effects = u.accept_request("r1", true);
    assert!(matches!(
        &effects[0],
        UiEffect::Send(UiCommand::RespondRequest { accept: true, overwrite: true, .. })
    ));
    assert!(u.overwrite_req.is_none());
    assert!(u.incoming.is_empty());
}

#[test]
fn free_files_are_taken_at_once() {
    let mut u = ui();
    u.request_received(request("r1", "a"), true, 5);
    let effects = u.ask_overwrite("r1", |_p: &str| false);
    assert!(matches!(
        &effects[0],
        UiEffect::Send(UiCommand::RespondRequest { accept: true, overwrite: false, .. })
    ));
    assert!(u.ask_overwrite("gone", |_p: &str| false).is_empty());
    u.request_received(request("r2", "a"), true, 5);
    let effects = u.reject_request("r2");
    assert!(matches!(
        &effects[0],
        UiEffect::Send(UiCommand::RespondRequest { accept: false, .. })
    ));
    assert!(u.incoming.is_empty());
}

#[test]
fn every_announced_file_is_shown() {
    let mut u = ui();
    let effects = started(&mut u, "x", true);
    assert_eq!(u.transfers[0].files.len(), 2);
    assert_eq!(u.transfers[0].files[0].source.as_deref(), Some("/s/a"));
    assert_eq!(u.transfers[0].files[1].source, None);
    match &effects[0] {
        UiEffect::StoreFiles { peer, msgs } => {
            assert_eq!(peer, "a");
            assert_eq!(msgs.len(), 2);
        }
        other => panic!("{other:?}"),
    }
    assert!(started(&mut u, "y", false).is_empty());
    assert_eq!(u.transfers[0].id, "y");
    assert_eq!(u.transfers[0].files.len(), 2);
    for i in 0..TRANSFER_LIMIT {
        started(&mut u, &format!("z{i}"), false);
    }
    assert_eq!(u.transfers.len(), TRANSFER_LIMIT);
}

fn progress(u: &mut UiState, at_ns: u64, bytes: u64, done: bool) {
    u.on_core_event(
        CoreEvent::FileProgress {
            transfer_id: "x".to_string(),
            file_id: "f1".to_string(),
            transferred: bytes,
            total: 100,
            done,
            path: Some("/dl/d/a".to_string()),
        },
        true,
        0,
        at_ns,
    );
}

#[test]
fn progress_and_speed() {
    let mut u = ui();
    started(&mut u, "x", false);
    progress(&mut u, 1_000_000_000, 10, false);
    assert_eq!(u.transfers[0].transferred_bytes(), 10);
    assert_eq!(u.transfers[0].total_bytes(), 150);
    assert_eq!(u.transfers[0].rate, None);
    assert_eq!(u.transfers[0].files[0].saved_path, None);
    progress(&mut u, 1_200_000_000, 20, false);
    assert_eq!(u.transfers[0].rate, None);
    progress(&mut u, 1_550_000_000, 65, false);
    assert_eq!(u.transfers[0].rate, Some((55, 550_000_000)));
    progress(&mut u, 2_550_000_000, 65, false);
    assert_eq!(u.transfers[0].rate, None);
    progress(&mut u, 3_550_000_000, 100, true);
    assert_eq!(u.transfers[0].rate, Some((35, 1_000_000_000)));
    assert_eq!(u.transfers[0].files[0].saved_path.as_deref(), Some("/dl/d/a"));
    assert!(!u.transfers[0].all_done());
}

#[test]
fn success_completes_every_file() {
    let mut u = ui();
    u.device_up(device("a", "A", 1));
    started(&mut u, "x", false);
    let done = CoreEvent::TransferFinished { transfer_id: "x".to_string(), error: None };
    let effects = event(&mut u, done, false);
    assert!(u.transfers[0].all_done());
    assert_eq!(u.transfers[0].transferred_bytes(), 150);
    assert_eq!(
        effects[0],
        UiEffect::Notify { title: "已接收 · A".to_string(), body: "d".to_string() }
    );
    started(&mut u, "y", false);
    let failed = CoreEvent::TransferFinished {
        transfer_id: "y".to_string(),
        error: Some("已取消".to_string()),
    };
    assert!(event(&mut u, failed, false).is_empty());
    assert_eq!(u.transfers[0].error.as_deref(), Some("已取消"));
    assert!(!u.transfers[0].all_done());
}

#[test]
fn errors_and_hints_are_toasts() {
    let mut u = ui();
    let bad = CoreEvent::Error { context: "端口".to_string(), message: "x".to_string() };
    event(&mut u, bad, true);
    let t = u.toast.as_ref().unwrap();
    assert_eq!((t.text.as_str(), t.is_error, t.at_ms), ("端口：x", true, 1_000));
    u.expire_toast(3_999);
    assert!(u.toast.is_some());
    u.expire_toast(4_000);
    assert!(u.toast.is_none());
    event(&mut u, CoreEvent::Info("hi".to_string()), true);
    assert!(!u.toast.as_ref().unwrap().is_error);
}

#[test]
fn what_is_typed_is_sent() {
    let mut u = ui();
    assert_eq!(u.send_current_input("hi"), None);
    u.select_peer("a");
    assert_eq!(u.send_current_input("  "), None);
    assert_eq!(
        u.send_current_input(" hi\n"),
        Some(UiCommand::SendText { peer_id: "a".to_string(), text: "hi".to_string() })
    );
    u.select_peer(WEB_PEER_ID);
    assert_eq!(
        u.send_current_input("hi"),
        Some(UiCommand::WebText { text: "hi".to_string() })
    );
}

#[test]
fn clipboard_is_sent() {
    let mut u = ui();
    assert_eq!(u.paste_and_send("hi", 1), None);
    assert_eq!(u.toast.as_ref().unwrap().text, "请先选择设备");
    u.select_peer("a");
    assert_eq!(u.paste_and_send(" ", 1), None);
    assert_eq!(u.toast.as_ref().unwrap().text, "剪贴板没有文本");
    assert!(matches!(u.paste_and_send("hi", 1), Some(UiCommand::SendText { .. })));
}

#[test]
fn dropped_files_are_sent() {
    let mut u = ui();
    assert_eq!(u.drop_hint(), "请先在左侧选择目标设备");
    assert_eq!(u.send_paths(vec!["/x".to_string()], 1), None);
    assert_eq!(u.toast.as_ref().unwrap().text, "请先在左侧选择目标设备");
    u.device_up(device("a", "A", 1));
    assert_eq!(u.drop_hint(), "松开即发送给 A");
    assert_eq!(u.send_paths(vec![], 1), None);
    assert_eq!(
        u.send_paths(vec!["/x".to_string()], 1),
        Some(UiCommand::SendFiles { peer_id: "a".to_string(), paths: vec!["/x".to_string()] })
    );
    u.select_peer(WEB_PEER_ID);
    assert!(matches!(
        u.send_paths(vec!["/x".to_string()], 1),
        Some(UiCommand::WebOffer { .. })
    ));
}

#[test]
fn devices_are_added_by_hand() {
    let mut u = ui();
    u.show_connect = true;
    assert_eq!(u.connect_clicked(" ", 1), None);
    assert_eq!(u.toast.as_ref().unwrap().text, "请输入 IP 地址");
    assert!(u.show_connect);
    assert_eq!(
        u.connect_clicked("10.0.0.1", 1),
        Some(UiCommand::ConnectPeer { host: "10.0.0.1".to_string() })
    );
    assert!(!u.show_connect);
}

#[test]
fn clearing_takes_two_clicks() {
    let mut u = ui();
    assert!(u.clear_clicked(0).is_empty());
    u.select_peer("a");
    u.history_loaded("a", vec![text(1, "a", "x")]);
    assert!(u.clear_clicked(0).is_empty());
    assert!(u.clear_armed(2_999));
    assert!(!u.clear_armed(3_000));
    assert!(u.clear_clicked(3_000).is_empty());
    assert_eq!(u.toast.as_ref().unwrap().text, "再点一次清空（3 秒内）");
    let effects = u.clear_clicked(3_001);
    assert_eq!(effects[0], UiEffect::ClearHistory { peer: "a".to_string() });
    assert!(u.chats.get("a").is_none());
    assert_eq!(u.toast.as_ref().unwrap().text, "已清空聊天记录");
}

#[test]
fn deleted_messages_are_gone() {
    let mut u = ui();
    u.append_messages("a", vec![text(1, "a", "x"), text(2, "a", "y"), text(3, "a", "z")]);
    let effects = u.delete_messages("a", vec![1, 3]);
    assert_eq!(effects, vec![UiEffect::DeleteMessages { ids: vec![1, 3] }]);
    let left: Vec<i64> = u.chats.get("a").unwrap().iter().map(|m| m.id).collect();
    assert_eq!(left, vec![2]);
}

#[test]
fn closing_follows_the_settings() {
    let mut u = ui();
    let (close, effects) = u.handle_close_request();
    assert!(!close && effects.is_empty() && u.show_close_dialog);
    u.close_remember = true;
    let effects = u.apply_close_choice("tray");
    assert_eq!(effects, vec![UiEffect::SaveConfig, UiEffect::HideWindow]);
    assert!(!u.show_close_dialog);
    assert_eq!(u.handle_close_request(), (false, vec![UiEffect::HideWindow]));
    u.set_close_action("close");
    assert_eq!(u.handle_close_request(), (true, vec![]));
    u.set_close_action("ask");
    u.force_close = true;
    assert_eq!(u.handle_close_request(), (true, vec![]));
}

#[test]
fn settings_are_edited() {
    let mut u = ui();
    let old = u.config.clone();
    assert_eq!(u.edit_settings(" ", "", "x"), old);
    let c = u.edit_settings(" 新 ", "/e", "99");
    assert_eq!((c.device_name.as_str(), c.download_dir.as_str(), c.http_port), ("新", "/e", 99));
    let effects = u.settings_saved(c, 1);
    assert_eq!(effects, vec![UiEffect::Send(UiCommand::Rename { name: "新".to_string() })]);
    assert_eq!(u.toast.as_ref().unwrap().text, "已保存；端口修改将在重启后生效");
    let same = u.config.clone();
    assert!(u.settings_saved(same, 1).is_empty());
    assert_eq!(u.toast.as_ref().unwrap().text, "已保存");
    u.save_failed("disk", 1);
    assert_eq!(u.toast.as_ref().unwrap().text, "保存失败: disk");
    assert_eq!(parse_port(" +80 "), Some(80));
    assert_eq!(parse_port("-1"), None);
}

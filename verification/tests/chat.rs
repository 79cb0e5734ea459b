use transfer_core::chat::{
    clock_text, fmt_speed, fmt_time, group_count, group_transfers, message_lines, peer_requests,
    scroll_step, speed_tail, transfer_open_target, CardState, ChatRow, ScrollStep,
};
use transfer_core::paths::System;
use transfer_core::proto::{Addr, ChatMessage, Device, DeviceInfo, FileMeta, MessageKind};
use transfer_core::store::Config;
use transfer_core::textmap::TextMap;
use transfer_core::ui::{IncomingReq, TransferFile, TransferState, UiState};

fn text(id: i64) -> ChatMessage {
    ChatMessage {
        id,
        peer_id: "a".to_string(),
        outgoing: true,
        kind: MessageKind::Text("x".to_string()),
        created_at: id,
    }
}

fn file(id: i64, tid: Option<&str>, outgoing: bool, saved: Option<&str>) -> ChatMessage {
    ChatMessage {
        id,
        peer_id: "a".to_string(),
        outgoing,
        kind: MessageKind::File {
            name: format!("n{id}"),
            size: 1024,
            saved_path: saved.map(|s| s.to_string()),
            transfer_id: tid.map(|s| s.to_string()),
            file_id: Some(format!("f{id}")),
        },
        created_at: id,
    }
}

fn ui() -> UiState {
    UiState::new(Config::fresh("/dl".to_string()), TextMap::new(), System::Unix)
}

fn moved(id: &str, rel: &str, moved: u64, saved: Option<&str>) -> TransferFile {
    TransferFile {
        meta: FileMeta {
            id: id.to_string(),
            name: rel.to_string(),
            rel_path: rel.to_string(),
            size: 1024,
        },
        transferred: moved,
        done: moved == 1024,
        saved_path: saved.map(|s| s.to_string()),
        source: None,
    }
}

fn transfer(files: Vec<TransferFile>) -> TransferState {
    TransferState {
        id: "t".to_string(),
        peer_id: "a".to_string(),
        files,
        error: None,
        last_sample: None,
        rate: None,
    }
}

#[test]
fn files_of_a_transfer_form_a_group() {
    let msgs = vec![
        text(1),
        file(2, Some("t"), true, None),
        file(3, Some("t"), true, None),
        file(4, Some("t"), false, None),
        file(5, Some("u"), false, None),
        file(6, None, false, None),
        file(7, None, false, None),
    ];
    assert_eq!(
        group_transfers(&msgs),
        vec![(0, 1), (1, 3), (3, 4), (4, 5), (5, 6), (6, 7)]
    );
    assert_eq!(group_count(&msgs), 6);
    assert_eq!(group_count(&vec![]), 0);
}

fn request(id: &str, from: &str) -> IncomingReq {
    IncomingReq {
        req_id: id.to_string(),
        peer: Device {
            info: DeviceInfo {
                id: from.to_string(),
                name: "A".to_string(),
                plat: "linux".to_string(),
                port: 1,
                v: 1,
            },
            addr: Addr::V4(10, 0, 0, 2),
            online: true,
            last_seen_ms: 0,
        },
        files: vec![],
    }
}

#[test]
fn rows_are_groups_and_requests() {
    let mut u = ui();
    u.append_messages("a", vec![text(1), file(2, Some("t"), true, None), file(3, Some("t"), true, None)]);
    u.incoming.push(request("r1", "b"));
    u.incoming.push(request("r2", "a"));
    assert_eq!(u.chat_row_count("a"), Some(3));
    assert_eq!(u.chat_row("a", 1), ChatRow::Messages(1, 3));
    assert_eq!(u.chat_row("a", 2), ChatRow::Request(0));
    assert_eq!(u.chat_row("a", 3), ChatRow::Nothing);
    assert_eq!(peer_requests(&u.incoming, "a")[0].req_id, "r2");
    assert_eq!(u.chat_row_count("b"), Some(1));
}

#[test]
fn list_follows_the_rows() {
    assert_eq!(scroll_step(3, 3), ScrollStep::Keep);
    assert_eq!(scroll_step(3, 5), ScrollStep::Append(2));
    assert_eq!(scroll_step(3, 1), ScrollStep::Reset(1));
}

#[test]
fn lines_of_a_message() {
    for s in ["", "a", "a\nb", "a\r\nb\n", "a\n\nb", "\n", "a\r", "\r\n\r"] {
        let lines: Vec<String> = s.lines().map(|l| l.to_string()).collect();
        assert_eq!(message_lines(s), lines, "{s:?}");
    }
}

#[test]
fn times_and_speeds() {
    assert_eq!(clock_text(Some((7, 5))), "07:05");
    assert_eq!(clock_text(None), "");
    assert_eq!(fmt_speed(None), "");
    assert_eq!(fmt_speed(Some(2048)), "2.0 KB/s");
    assert_eq!(speed_tail(None), "");
    assert_eq!(speed_tail(Some(512)), " · 512 B/s");
    let t = fmt_time(1_700_000_000_000);
    assert_eq!(t.len(), 5);
    assert_eq!(&t[2..3], ":");
    assert!(fmt_time(0) == fmt_time(86_400_000));
    assert_eq!(fmt_time(i64::MAX), "");
}

#[test]
fn transfers_are_opened_at_their_folder() {
    let list = vec![transfer(vec![
        moved("f1", "d/a", 0, None),
        moved("f2", "d/b", 1024, Some("/dl/d/b")),
    ])];
    let target = |tid: Option<&str>, fid: Option<&str>| {
        transfer_open_target(&list, tid, fid, System::Unix)
    };
    assert_eq!(target(Some("t"), None).as_deref(), Some("/dl/d"));
    assert_eq!(target(Some("t"), Some("f2")).as_deref(), Some("/dl/d"));
    assert_eq!(target(Some("t"), Some("f1")), None);
    assert_eq!(target(Some("x"), None), None);
    assert_eq!(target(None, None), None);
}

#[test]
fn card_of_a_running_batch() {
    let mut u = ui();
    let msgs = vec![file(1, Some("t"), true, None), file(2, Some("t"), true, None)];
    u.transfers.push(transfer(vec![moved("f1", "d/a", 0, None), moved("f2", "d/b", 0, None)]));
    let c = u.make_batch_card(&msgs);
    assert_eq!(c.title, "d");
    assert_eq!(c.subtitle, "2.0 KB · 0/2 已完成");
    assert_eq!(c.ids, vec![1, 2]);
    assert!(c.mine);
    assert_eq!(
        c.state,
        CardState::Running {
            sent: 0,
            total: 2048,
            detail: "等待对方接收".to_string(),
            rate: None,
        }
    );
    u.transfers[0].files[0] = moved("f1", "d/a", 1024, None);
    u.transfers[0].rate = Some((512, 1_000_000_000));
    let c = u.make_batch_card(&msgs);
    assert_eq!(c.subtitle, "2.0 KB · 1/2 已完成");
    assert_eq!(
        c.state,
        CardState::Running {
            sent: 1024,
            total: 2048,
            detail: " · 1.0 KB / 2.0 KB".to_string(),
            rate: Some((512, 1_000_000_000)),
        }
    );
    u.transfers[0].error = Some("已取消".to_string());
    assert_eq!(u.make_batch_card(&msgs).state, CardState::Failed("已取消".to_string()));
}

#[test]
fn card_of_a_finished_batch() {
    let mut u = ui();
    let msgs = vec![
        file(1, Some("t"), false, Some("/dl/d/a")),
        file(2, Some("t"), false, Some("/dl/d/sub/b")),
    ];
    u.transfers.push(transfer(vec![
        moved("f1", "d/a", 1024, Some("/dl/d/a")),
        moved("f2", "d/sub/b", 1024, Some("/dl/d/sub/b")),
    ]));
    let c = u.make_batch_card(&msgs);
    assert_eq!(
        c.state,
        CardState::Done { label: "已保存".to_string(), open: Some("/dl/d".to_string()) }
    );
    u.transfers.clear();
    let c = u.make_batch_card(&msgs);
    assert_eq!(c.title, "d");
    assert_eq!(c.subtitle, "2.0 KB · 2/2 已完成");
    assert_eq!(
        c.state,
        CardState::Done { label: "已接收".to_string(), open: Some("/dl/d".to_string()) }
    );
    let loose = vec![
        file(1, Some("t"), false, Some("/dl/网页上传/a")),
        file(2, Some("t"), false, Some("/dl/网页上传/b")),
    ];
    assert_eq!(u.make_batch_card(&loose).title, "2 个文件");
}

fn card(u: &UiState, saved: Option<&str>, mine: bool) -> CardState {
    u.file_card(
        "a",
        1024,
        &saved.map(|s| s.to_string()),
        &Some("t".to_string()),
        &Some("f1".to_string()),
        mine,
    )
    .state
}

fn done(label: &str, open: Option<&str>) -> CardState {
    CardState::Done { label: label.to_string(), open: open.map(|s| s.to_string()) }
}

#[test]
fn card_of_a_file() {
    let mut u = ui();
    assert_eq!(card(&u, None, true), done("已发送", None));
    assert_eq!(card(&u, None, false), done("已接收", None));
    assert_eq!(card(&u, Some("/s/a"), true), done("已发送", Some("/s/a")));
    assert_eq!(card(&u, Some("/s/a"), false), done("已保存", Some("/s/a")));

    u.transfers.push(transfer(vec![moved("f1", "d/a", 0, None)]));
    assert!(matches!(card(&u, None, true), CardState::Running { sent: 0, .. }));
    u.transfers[0].files[0] = moved("f1", "d/a", 512, None);
    assert_eq!(
        card(&u, None, true),
        CardState::Running {
            sent: 512,
            total: 1024,
            detail: " · 512 B / 1.0 KB".to_string(),
            rate: None,
        }
    );
    u.transfers[0].files[0] = moved("f1", "d/a", 1024, None);
    assert_eq!(card(&u, None, true), done("已完成", None));
    u.transfers[0].files[0] = moved("f1", "d/a", 1024, Some("/dl/d/a"));
    assert_eq!(card(&u, None, false), done("已保存", Some("/dl/d")));
    u.transfers[0].error = Some("已取消".to_string());
    assert_eq!(card(&u, None, true), CardState::Failed("已取消".to_string()));

    let c = u.file_card("a", 1536, &None, &None, &None, true);
    assert_eq!((c.key.as_str(), c.size_text.as_str()), ("a", "1.5 KB"));
    let c = u.file_card("a", 1, &None, &Some("t".to_string()), &Some("f1".to_string()), true);
    assert_eq!(c.key, "t-f1");
}

use transfer_core::client::CollectError;
use transfer_core::engine::{
    clean_host, connect_target, identity, offer_refused, parse_number, parse_socket, send_refused,
    Action, Engine, Target,
};
use transfer_core::paths::System;
use transfer_core::proto::{Addr, CoreEvent, DeviceInfo, MessageKind, UiCommand, WEB_PEER_ID};
use transfer_core::store::Config;

fn info(id: &str) -> DeviceInfo {
    DeviceInfo {
        id: id.to_string(),
        name: id.to_uppercase(),
        plat: "linux".to_string(),
        port: 17878,
        v: 1,
    }
}

fn engine() -> Engine {
    let mut e = Engine::new(info("me"), "/dl".to_string(), System::Unix);
    e.server.registry.on_announce(info("a"), Addr::V4(10, 0, 0, 2), 0);
    e
}

fn send_files() -> UiCommand {
    UiCommand::SendFiles { peer_id: "a".to_string(), paths: vec!["/x".to_string()] }
}

#[test]
fn numbers_are_read() {
    assert_eq!(parse_number("0", 255), Some(0));
    assert_eq!(parse_number("255", 255), Some(255));
    assert_eq!(parse_number("256", 255), None);
    assert_eq!(parse_number("", 255), None);
    assert_eq!(parse_number("1a", 255), None);
    assert_eq!(parse_number("99999999999999999999", 65535), None);
}

#[test]
fn sockets_are_read() {
    assert_eq!(parse_socket("192.168.1.5:80"), Some(((192, 168, 1, 5), 80)));
    assert_eq!(parse_socket("192.168.1.5"), None);
    assert_eq!(parse_socket("192.168.1:80"), None);
    assert_eq!(parse_socket("192.168.1.256:80"), None);
    assert_eq!(parse_socket("192.168.1.05:80"), None);
    assert_eq!(parse_socket("1.2.3.4:65536"), None);
    assert_eq!(parse_socket("1.2.3.4:00080"), Some(((1, 2, 3, 4), 80)));
}

#[test]
fn hosts_are_cleaned() {
    assert_eq!(clean_host("  http://10.0.0.1 "), "10.0.0.1");
    assert_eq!(clean_host("http://http://10.0.0.1"), "10.0.0.1");
}

#[test]
fn targets_of_hosts() {
    let t = connect_target("10.0.0.1", None).unwrap();
    assert_eq!(t, Target { addr: Addr::V4(10, 0, 0, 1), port: 17878 });
    assert_eq!(t.text(), "10.0.0.1:17878");
    let t = connect_target("10.0.0.1:99", None).unwrap();
    assert_eq!(t.port, 99);
    let t = connect_target("[::1]:99", Some(("::1".to_string(), 99))).unwrap();
    assert_eq!(t.text(), "[::1]:99");
    let wrong = |m: &str| CoreEvent::Error {
        context: "添加设备".to_string(),
        message: m.to_string(),
    };
    assert_eq!(connect_target("abc", None), Err(wrong("无效的 IP 地址")));
    assert_eq!(
        connect_target("abc:1", None),
        Err(wrong("格式不对，应为 IP 或 IP:端口，如 192.168.1.5"))
    );
}

#[test]
fn text_goes_to_peers_that_are_there() {
    let mut e = engine();
    let cmd = UiCommand::SendText { peer_id: "a".to_string(), text: "hi".to_string() };
    let (event, action) = e.on_command(cmd.clone(), 7);
    assert_eq!(event, None);
    match action {
        Action::SendText { msg, base, sender } => {
            assert_eq!(msg.kind, MessageKind::Text("hi".to_string()));
            assert!(msg.outgoing);
            assert_eq!(base, "http://10.0.0.2:17878");
            assert_eq!(sender, info("me"));
        }
        other => panic!("{other:?}"),
    }
    e.server.registry.on_bye("a");
    let (event, action) = e.on_command(cmd, 8);
    assert_eq!(
        event,
        Some(CoreEvent::Error {
            context: "发送消息".to_string(),
            message: "对方不在线或未知".to_string(),
        })
    );
    assert_eq!(action, Action::Nothing);
}

#[test]
fn files_go_to_peers_that_are_there() {
    let mut e = engine();
    let (event, action) = e.on_command_as(send_files(), "x", 7);
    assert_eq!(event, None);
    assert_eq!(
        action,
        Action::SendFiles {
            transfer_id: "x".to_string(),
            base: "http://10.0.0.2:17878".to_string(),
            peer_id: "a".to_string(),
            peer_name: "A".to_string(),
            paths: vec!["/x".to_string()],
        }
    );
    e.server.registry.on_bye("a");
    let (event, _) = e.on_command_as(send_files(), "y", 7);
    assert!(matches!(event, Some(CoreEvent::Error { context, .. }) if context == "发送文件"));
}

#[test]
fn every_transfer_gets_an_id() {
    let mut e = engine();
    match e.on_command(send_files(), 7).1 {
        Action::SendFiles { transfer_id, .. } => assert_eq!(transfer_id.len(), 36),
        other => panic!("{other:?}"),
    }
}

#[test]
fn cancelling_tells_the_receiver_once() {
    let mut e = engine();
    e.on_command_as(send_files(), "x", 7);
    e.note_token("x", "t");
    let cancel = UiCommand::CancelTransfer { transfer_id: "x".to_string() };
    assert_eq!(
        e.on_command(cancel.clone(), 8).1,
        Action::CancelSend {
            transfer_id: "x".to_string(),
            notify: Some("http://10.0.0.2:17878/api/transfer/cancel/t".to_string()),
        }
    );
    assert_eq!(e.on_command(cancel, 8), (None, Action::Nothing));
}

#[test]
fn renaming_takes_a_name() {
    let mut e = engine();
    e.on_command(UiCommand::Rename { name: "  新名 ".to_string() }, 7);
    assert_eq!(e.server.me.name, "新名");
    e.on_command(UiCommand::Rename { name: "   ".to_string() }, 7);
    assert_eq!(e.server.me.name, "新名");
    assert_eq!(e.server.me.id, "me");
}

#[test]
fn web_commands() {
    let mut e = engine();
    let (_, action) = e.on_command(UiCommand::WebText { text: " 你好 ".to_string() }, 7);
    match action {
        Action::StoreMessage { msg } => {
            assert_eq!(msg.peer_id, WEB_PEER_ID);
            assert_eq!(msg.kind, MessageKind::Text("你好".to_string()));
        }
        other => panic!("{other:?}"),
    }
    let (_, action) = e.on_command(UiCommand::WebText { text: " ".to_string() }, 7);
    assert_eq!(action, Action::Nothing);
    let (_, action) = e.on_command(UiCommand::WebOffer { paths: vec!["/x".to_string()] }, 7);
    assert_eq!(action, Action::OfferFiles { paths: vec!["/x".to_string()] });
    assert_eq!(e.on_command(UiCommand::Shutdown, 7), (None, Action::Stop));
}

#[test]
fn probed_device_is_listed() {
    let mut e = Engine::new(info("me"), "/dl".to_string(), System::Unix);
    let t = Target { addr: Addr::V4(10, 0, 0, 9), port: 5 };
    let events = e.on_probe(&t, Ok(info("b")), 7);
    assert_eq!(events.len(), 2);
    assert_eq!(events[0], CoreEvent::Info("已连接 10.0.0.9".to_string()));
    assert!(matches!(&events[1], CoreEvent::DeviceUp(d) if d.info.id == "b"));
    assert_eq!(e.on_probe(&t, Ok(info("b")), 8).len(), 1);
    assert_eq!(
        e.on_probe(&t, Err("timeout".to_string()), 9),
        vec![CoreEvent::Error {
            context: "添加设备".to_string(),
            message: "10.0.0.9:5: timeout".to_string(),
        }]
    );
}

#[test]
fn shutting_down_stops_everything() {
    let mut e = engine();
    e.on_command_as(send_files(), "x", 7);
    assert_eq!(e.shut_down(), (vec!["x".to_string()], vec![]));
    assert!(e.sendings.is_empty());
}

#[test]
fn refusals_of_collecting() {
    let bad = CollectError::Unreadable { path: "/x".to_string(), reason: "gone".to_string() };
    assert_eq!(
        send_refused("t", &bad),
        (
            CoreEvent::Error {
                context: "发送文件".to_string(),
                message: "读取 /x 失败: gone".to_string(),
            },
            CoreEvent::TransferFinished {
                transfer_id: "t".to_string(),
                error: Some("读取 /x 失败".to_string()),
            }
        )
    );
    assert!(matches!(
        offer_refused(&CollectError::Empty),
        CoreEvent::Error { context, message } if context == "发送到网页" && message == "没有可发送的文件"
    ));
}

#[test]
fn identity_of_this_device() {
    let c = Config::fresh("/dl".to_string());
    let me = identity(&c, "macos");
    assert_eq!(me.id, c.device_id);
    assert_eq!(me.name, c.device_name);
    assert_eq!(me.plat, "mac");
    assert_eq!(me.port, 17878);
    assert_eq!(me.v, 1);
}

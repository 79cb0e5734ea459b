use transfer_core::panels::{
    ask_before_overwriting, badge, local_address, plat_label, plat_shape, qr_rows, square_rows,
    web_url, Overlay, PlatShape,
};
use transfer_core::paths::System;
use transfer_core::proto::{Addr, Device, DeviceInfo, FileMeta, WEB_PEER_ID};
use transfer_core::store::Config;
use transfer_core::textmap::TextMap;
use transfer_core::ui::{IncomingReq, UiState};

fn device(id: &str, name: &str, online: bool) -> Device {
    Device {
        info: DeviceInfo {
            id: id.to_string(),
            name: name.to_string(),
            plat: "macos".to_string(),
            port: 99,
            v: 1,
        },
        addr: Addr::V4(10, 0, 0, 2),
        online,
        last_seen_ms: 0,
    }
}

fn ui() -> UiState {
    let mut c = Config::fresh("/dl".to_string());
    c.device_name = "Me".to_string();
    UiState::new(c, TextMap::new(), System::Unix)
}

#[test]
fn addresses_of_this_device() {
    assert_eq!(local_address(Some("10.0.0.1"), 99), "10.0.0.1:99");
    assert_eq!(local_address(None, 99), "127.0.0.1:99");
    assert_eq!(web_url(Some("10.0.0.1"), 99), "http://10.0.0.1:99/");
    assert_eq!(web_url(None, 99), "http://127.0.0.1:99/");
}

#[test]
fn platforms_have_names_and_shapes() {
    assert_eq!(plat_label("WINDOWS"), "Windows");
    assert_eq!(plat_label("mac"), "Mac");
    assert_eq!(plat_label("macOS"), "Mac");
    assert_eq!(plat_label("linux"), "Linux");
    assert_eq!(plat_label("ios"), "iPhone");
    assert_eq!(plat_label("android"), "Android");
    assert_eq!(plat_label("BeOS"), "beos");
    assert_eq!(plat_shape("Linux"), PlatShape::Monitor);
    assert_eq!(plat_shape("Mac"), PlatShape::Notebook);
    assert_eq!(plat_shape("ios"), PlatShape::Phone);
}

#[test]
fn badges() {
    assert_eq!(badge(0), None);
    assert_eq!(badge(99).as_deref(), Some("99"));
    assert_eq!(badge(100).as_deref(), Some("99+"));
}

#[test]
fn headers_of_conversations() {
    let mut u = ui();
    u.device_up(device("a", "A", true));
    let h = u.chat_header("a", Some("10.0.0.1"));
    assert_eq!((h.name.as_str(), h.plat.as_str(), h.online), ("A", "macos", true));
    assert_eq!(h.tail, "10.0.0.2:99");
    u.device_down("a");
    let h = u.chat_header("a", Some("10.0.0.1"));
    assert_eq!(h.addr, None);
    assert_eq!(h.tail, "离线");
    let h = u.chat_header(WEB_PEER_ID, Some("10.0.0.1"));
    assert!(h.is_web && h.online);
    assert_eq!(h.name, "HTTP Server");
    assert_eq!(h.tail, "http://10.0.0.1:17878/");
    let h = u.chat_header("0123456789", None);
    assert_eq!(h.name, "01234567");
    assert_eq!(h.plat, "web");
}

#[test]
fn sidebar_lists_who_is_there_by_name() {
    let mut u = ui();
    assert_eq!(u.sidebar(None).group, None);
    u.device_up(device("1", "b", true));
    u.device_up(device("2", "a", true));
    u.device_up(device("3", "c", true));
    u.device_up(device("4", "a", true));
    u.device_down("3");
    let s = u.sidebar(Some("10.0.0.1"));
    let names: Vec<&str> = s.rows.iter().map(|r| r.name.as_str()).collect();
    assert_eq!(names, vec!["a", "a", "b"]);
    assert_eq!(s.group.as_deref(), Some("在线 · 3"));
    assert_eq!(s.me_name, "Me");
    assert_eq!(s.me_addr, "10.0.0.1:17878");
    assert!(s.rows.iter().any(|r| r.id == "1" && r.selected && r.label == "Mac"));
}

fn request(n: usize) -> IncomingReq {
    IncomingReq {
        req_id: "r".to_string(),
        peer: device("a", "A", true),
        files: (0..n)
            .map(|i| FileMeta {
                id: format!("f{i}"),
                name: format!("n{i}"),
                rel_path: format!("n{i}"),
                size: 512,
            })
            .collect(),
    }
}

#[test]
fn requests_say_what_comes() {
    let c = ui().make_request_card(&request(3));
    assert_eq!(c.title, "A 想发送 3 个文件");
    assert_eq!(c.detail, "1.5 KB · 保存到 /dl");
}

#[test]
fn questions_name_the_first_files() {
    let names: Vec<String> = (0..6).map(|i| format!("n{i}")).collect();
    let q = ask_before_overwriting(&names);
    assert_eq!(q.title, "6 个同名文件已存在");
    assert_eq!(q.lines, vec!["· n0", "· n1", "· n2", "· n3", "· n4"]);
    assert_eq!(q.more.as_deref(), Some("… 等共 6 个"));
    assert_eq!(ask_before_overwriting(&names[..5].to_vec()).more, None);
}

#[test]
fn autostart_is_told() {
    let mut u = ui();
    u.autostart_switched(Ok(true), 1);
    assert_eq!(u.toast.as_ref().unwrap().text, "已开启开机启动");
    u.autostart_switched(Ok(false), 1);
    assert_eq!(u.toast.as_ref().unwrap().text, "已关闭开机启动");
    u.autostart_switched(Err("denied"), 1);
    let t = u.toast.as_ref().unwrap();
    assert_eq!((t.text.as_str(), t.is_error), ("设置失败: denied", true));
}

#[test]
fn overlays_lie_in_order() {
    let mut u = ui();
    assert!(u.overlays().is_empty());
    u.show_close_dialog = true;
    u.show_settings = true;
    u.autostart_switched(Ok(true), 1);
    assert_eq!(u.overlays(), vec![Overlay::Settings, Overlay::Close, Overlay::Toast]);
}

#[test]
fn choice_of_the_settings_is_marked() {
    let mut u = ui();
    u.set_close_action("tray");
    let chosen: Vec<(String, bool)> =
        u.close_choices().into_iter().map(|c| (c.action, c.chosen)).collect();
    assert_eq!(
        chosen,
        vec![
            ("ask".to_string(), false),
            ("tray".to_string(), true),
            ("close".to_string(), false)
        ]
    );
    assert_eq!(u.clear_hint(0), "清空聊天记录");
}

#[test]
fn squares_become_rows() {
    let cells = vec![true, false, false, true];
    assert_eq!(square_rows(2, &cells), vec![vec![true, false], vec![false, true]]);
}

#[test]
fn code_of_an_address() {
    let rows = qr_rows("http://192.168.1.5:17878/").unwrap();
    assert_eq!(rows.len(), 25);
    assert!(rows.iter().all(|r| r.len() == 25));
    let corner: Vec<String> = rows[..7]
        .iter()
        .map(|r| r[..7].iter().map(|d| if *d { '#' } else { '.' }).collect())
        .collect();
    assert_eq!(
        corner,
        vec!["#######", "#.....#", "#.###.#", "#.###.#", "#.###.#", "#.....#", "#######"]
    );
    assert_eq!(rows[4 * 2 + 9][8], true);
    assert_ne!(qr_rows("http://192.168.1.6:17878/").unwrap(), rows);
    assert_eq!(qr_rows(&"x".repeat(3000)), None);
}

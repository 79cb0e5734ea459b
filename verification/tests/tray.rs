use transfer_core::paths::System;
use transfer_core::tray::{
    find_main_window, flash_taskbar, fresh_tray, hide_main_window, icon_path, is_foreground,
    on_icon, on_menu, set_unread, show_main_window, tick, TrayAction, TrayClick, TrayStep,
    WindowInfo, WindowStep,
};

#[test]
fn icon_blinks_while_something_waits() {
    let mut t = fresh_tray();
    let still = TrayStep { visible: None, overlay: None, tooltip: None };
    assert_eq!(tick(&mut t), still);
    set_unread(&mut t, true);
    assert_eq!(
        tick(&mut t),
        TrayStep {
            visible: Some(false),
            overlay: Some(true),
            tooltip: Some("LocalTransfer · 有未读消息".to_string()),
        }
    );
    assert_eq!(
        tick(&mut t),
        TrayStep { visible: Some(true), overlay: None, tooltip: None }
    );
    assert_eq!(tick(&mut t).visible, Some(false));
    set_unread(&mut t, false);
    assert_eq!(
        tick(&mut t),
        TrayStep {
            visible: Some(true),
            overlay: Some(false),
            tooltip: Some("LocalTransfer".to_string()),
        }
    );
    assert_eq!(tick(&mut t), still);
}

#[test]
fn clicks_in_the_tray() {
    assert_eq!(on_icon(TrayClick::Left), TrayAction::Show);
    assert_eq!(on_icon(TrayClick::Other), TrayAction::Nothing);
    assert_eq!(on_menu("2", "1", "2"), TrayAction::Quit);
    assert_eq!(on_menu("1", "1", "2"), TrayAction::Show);
    assert_eq!(on_menu("3", "1", "2"), TrayAction::Nothing);
}

fn window(handle: i64, process: u32, title: &str) -> WindowInfo {
    WindowInfo { handle, process, title: title.to_string() }
}

#[test]
fn main_window_has_process_and_title() {
    let list = vec![
        window(1, 7, "Other"),
        window(2, 8, "LocalTransfer"),
        window(3, 7, "LocalTransfer"),
        window(4, 7, "LocalTransfer"),
    ];
    assert_eq!(find_main_window(&list, 7), Some(3));
    assert_eq!(find_main_window(&list, 9), None);
}

#[test]
fn windows_are_shown_hidden_and_flashed() {
    assert_eq!(
        show_main_window(Some(3)),
        vec![WindowStep::Show(3), WindowStep::Restore(3), WindowStep::ToFront(3)]
    );
    assert_eq!(hide_main_window(Some(3)), vec![WindowStep::Hide(3)]);
    assert_eq!(flash_taskbar(Some(3)), vec![WindowStep::Flash(3, 5)]);
    assert!(show_main_window(None).is_empty());
    assert!(hide_main_window(None).is_empty());
    assert!(flash_taskbar(None).is_empty());
    assert!(is_foreground(Some(3), 3));
    assert!(!is_foreground(Some(3), 4));
    assert!(!is_foreground(None, 0));
}

#[test]
fn icon_is_looked_for_in_order() {
    let find = |there: &'static str| {
        icon_path("/opt/lt/lt", "/src/app", "i.png", System::Unix, move |p: &str| p == there)
    };
    assert_eq!(find("/opt/lt/i.png").as_deref(), Some("/opt/lt/i.png"));
    assert_eq!(find("/opt/lt/assets/i.png").as_deref(), Some("/opt/lt/assets/i.png"));
    assert_eq!(
        find("/src/app/../../assets/i.png").as_deref(),
        Some("/src/app/../../assets/i.png")
    );
    assert_eq!(find("/elsewhere"), None);
}

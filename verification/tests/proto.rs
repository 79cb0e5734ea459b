use transfer_core::paths::System;
use transfer_core::proto::{
    clock_ms, fmt_size, now_ms, Addr, Device, DeviceInfo, FileMeta, ProgressThrottle,
};

#[test]
fn rel_path_safety() {
    for sys in [System::Unix, System::Windows] {
        assert!(FileMeta::is_rel_path_safe("a.txt", sys));
        assert!(FileMeta::is_rel_path_safe("dir/sub/a.txt", sys));
        assert!(!FileMeta::is_rel_path_safe("../a.txt", sys));
        assert!(!FileMeta::is_rel_path_safe("dir/../a.txt", sys));
        assert!(!FileMeta::is_rel_path_safe("/etc/passwd", sys));
        assert!(!FileMeta::is_rel_path_safe("C:/a.txt", sys));
        assert!(!FileMeta::is_rel_path_safe("", sys));
    }
}

#[test]
fn rel_path_with_backslashes() {
    let windows = System::Windows;
    let unix = System::Unix;
    assert!(FileMeta::is_rel_path_safe("dir\\a.txt", windows));
    assert!(FileMeta::is_rel_path_safe("dir\\a.txt", unix));
    assert!(!FileMeta::is_rel_path_safe("dir\\..\\a.txt", windows));
    assert!(FileMeta::is_rel_path_safe("dir\\..\\a.txt", unix));
    assert!(!FileMeta::is_rel_path_safe("\\a.txt", windows));
    assert!(FileMeta::is_rel_path_safe("\\a.txt", unix));
    assert!(FileMeta::is_rel_path_safe("a..b/c", windows));
    assert!(FileMeta::is_rel_path_safe("a..b/c", unix));
}

#[test]
fn base_address_of_a_device() {
    let d = Device {
        info: DeviceInfo {
            id: "a".to_string(),
            name: "A".to_string(),
            plat: "linux".to_string(),
            port: 17878,
            v: 1,
        },
        addr: Addr::V4(192, 168, 0, 7),
        online: true,
        last_seen_ms: 0,
    };
    assert_eq!(d.http_base(), "http://192.168.0.7:17878");
}

fn shown(bytes: u64) -> String {
    let units = ["B", "KB", "MB", "GB", "TB"];
    let mut v = bytes as f64;
    let mut i = 0;
    while v >= 1024.0 && i < 4 {
        v /= 1024.0;
        i += 1;
    }
    if i == 0 {
        format!("{bytes} B")
    } else {
        format!("{v:.1} {}", units[i])
    }
}

#[test]
fn sizes_for_people() {
    assert_eq!(fmt_size(0), "0 B");
    assert_eq!(fmt_size(1023), "1023 B");
    assert_eq!(fmt_size(1024), "1.0 KB");
    assert_eq!(fmt_size(1536), "1.5 KB");
    assert_eq!(fmt_size(1_048_575), "1024.0 KB");
    assert_eq!(fmt_size(10_737_418_240), "10.0 GB");
    assert_eq!(fmt_size(u64::MAX), "16777216.0 TB");
}

#[test]
fn sizes_agree_with_floating_point() {
    let mut n: u64 = 1;
    for k in 0..2_000u64 {
        n = n.wrapping_mul(6364136223846793005).wrapping_add(1442695040888963407);
        let x = n >> (k % 64);
        assert_eq!(fmt_size(x), shown(x), "{x}");
    }
    for e in 0..64u32 {
        for d in [0u64, 1, 2, 3, 51, 52, 53, 1000] {
            let x = (1u64 << e).wrapping_add(d);
            assert_eq!(fmt_size(x), shown(x), "{x}");
            let y = (1u64 << e).wrapping_sub(d);
            assert_eq!(fmt_size(y), shown(y), "{y}");
        }
    }
    for x in 1024..40_000u64 {
        assert_eq!(fmt_size(x), shown(x), "{x}");
    }
}

#[test]
fn clock_before_the_epoch_is_zero() {
    assert_eq!(clock_ms(None), 0);
    assert_eq!(clock_ms(Some(5)), 5);
    assert!(now_ms() > 1_600_000_000_000);
}

#[test]
fn reports_are_spaced() {
    let mut t = ProgressThrottle::new(150);
    assert!(t.allow_at(1_000));
    assert!(!t.allow_at(1_149));
    assert!(t.allow_at(1_150));
    assert!(!t.allow_at(1_151));
    let mut t = ProgressThrottle::new(3_600_000);
    assert!(t.allow());
    assert!(!t.allow());
}

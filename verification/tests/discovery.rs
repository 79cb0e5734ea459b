use transfer_core::discovery::{
    announce_step, note_peer, on_packet, outgoing_interfaces, prune_round, sort_by_last_seen,
    Registry, ReplyLog, FORGET_AFTER_MS, REPLY_INTERVAL_MS,
};
use transfer_core::proto::{Addr, CoreEvent, DeviceInfo, DiscoveryPacket, DEVICE_TIMEOUT_SECS};

fn info(id: &str, name: &str) -> DeviceInfo {
    DeviceInfo {
        id: id.to_string(),
        name: name.to_string(),
        plat: "windows".to_string(),
        port: 53817,
        v: 1,
    }
}

fn ip() -> Addr {
    Addr::V4(192, 168, 1, 10)
}

#[test]
fn announce_new_and_change() {
    let mut r = Registry::default();
    assert!(r.on_announce(info("a", "A"), ip(), 0).is_some());
    assert!(r.on_announce(info("a", "A"), ip(), 1).is_none());
    assert!(r.on_announce(info("a", "A2"), ip(), 2).is_some());
}

#[test]
fn bye_prune_revive() {
    let mut r = Registry::default();
    r.on_announce(info("a", "A"), ip(), 0);
    assert_eq!(r.on_bye("a"), Some(("a".to_string(), "A".to_string())));
    assert_eq!(r.on_bye("a"), None);
    assert!(r.on_announce(info("a", "A"), ip(), 5).is_some());
    assert_eq!(r.prune(5 + (DEVICE_TIMEOUT_SECS * 1000) as i64 + 1).len(), 1);
}

#[test]
fn announced_device_is_found() {
    let mut r = Registry::default();
    r.on_announce(info("a", "A"), ip(), 7);
    let d = r.get("a").unwrap();
    assert_eq!(d.info, info("a", "A"));
    assert_eq!(d.addr, ip());
    assert!(d.online);
    assert_eq!(d.last_seen_ms, 7);
    assert!(r.get("b").is_none());
}

#[test]
fn device_times_out_after_the_limit_only() {
    let limit = (DEVICE_TIMEOUT_SECS * 1000) as i64;
    let mut r = Registry::default();
    r.on_announce(info("a", "A"), ip(), 0);
    assert!(r.prune(limit).is_empty());
    assert!(r.get("a").unwrap().online);
    assert_eq!(r.prune(limit + 1).len(), 1);
    assert!(!r.get("a").unwrap().online);
    assert!(r.prune(FORGET_AFTER_MS).is_empty());
    assert!(r.get("a").is_some());
    assert!(r.prune(FORGET_AFTER_MS + 1).is_empty());
    assert!(r.get("a").is_none());
}

#[test]
fn touching_revives_nobody() {
    let mut r = Registry::default();
    r.on_announce(info("a", "A"), ip(), 0);
    r.touch_by_ip(&ip(), 50);
    assert_eq!(r.get("a").unwrap().last_seen_ms, 50);
    r.on_bye("a");
    r.touch_by_ip(&ip(), 99);
    assert_eq!(r.get("a").unwrap().last_seen_ms, 50);
    assert!(!r.get("a").unwrap().online);
    r.touch_by_ip(&Addr::V4(10, 0, 0, 1), 100);
    assert_eq!(r.get("a").unwrap().last_seen_ms, 50);
}

#[test]
fn ghost_at_the_same_address_goes() {
    let mut r = Registry::default();
    r.on_announce(info("old", "Old"), ip(), 0);
    r.on_bye("old");
    r.on_announce(info("new", "New"), ip(), 1);
    assert!(r.get("old").is_none());
    assert!(r.get("new").is_some());
}

#[test]
fn device_that_is_there_stays_beside_another_at_its_address() {
    let mut r = Registry::default();
    r.on_announce(info("a", "A"), ip(), 0);
    r.on_announce(info("b", "B"), ip(), 1);
    assert!(r.get("a").is_some());
}

#[test]
fn list_is_newest_first() {
    let mut r = Registry::default();
    r.on_announce(info("a", "A"), Addr::V4(10, 0, 0, 1), 1);
    r.on_announce(info("b", "B"), Addr::V4(10, 0, 0, 2), 3);
    r.on_announce(info("c", "C"), Addr::V4(10, 0, 0, 3), 2);
    let ids: Vec<String> = r.list().into_iter().map(|d| d.info.id).collect();
    assert_eq!(ids, vec!["b", "c", "a"]);
    assert_eq!(sort_by_last_seen(&r.devices), r.list());
}

#[test]
fn packets_are_answered_in_turn() {
    let mut r = Registry::default();
    let mut log = ReplyLog::new();
    let me = info("me", "Me");
    let hello = DiscoveryPacket::Announce { info: info("a", "A") };

    let out = on_packet(&mut r, &mut log, &me, hello.clone(), ip(), 0);
    assert!(matches!(out.event, Some(CoreEvent::DeviceUp(_))));
    assert!(out.reply);
    let out = on_packet(&mut r, &mut log, &me, hello.clone(), ip(), REPLY_INTERVAL_MS - 1);
    assert_eq!(out.event, None);
    assert!(!out.reply);
    let out = on_packet(&mut r, &mut log, &me, hello, ip(), REPLY_INTERVAL_MS);
    assert!(out.reply);

    let out = on_packet(
        &mut r,
        &mut log,
        &me,
        DiscoveryPacket::Bye { id: "a".to_string() },
        ip(),
        9_000,
    );
    assert_eq!(
        out.event,
        Some(CoreEvent::DeviceDown { id: "a".to_string(), name: "A".to_string() })
    );
    assert!(!out.reply);
}

#[test]
fn own_and_foreign_packets_are_ignored() {
    let mut r = Registry::default();
    let mut log = ReplyLog::new();
    let me = info("me", "Me");
    let mut newer = info("a", "A");
    newer.v = 2;
    let packets = vec![
        DiscoveryPacket::Announce { info: me.clone() },
        DiscoveryPacket::Announce { info: newer },
        DiscoveryPacket::Bye { id: "me".to_string() },
        DiscoveryPacket::Bye { id: "nobody".to_string() },
    ];
    for p in packets {
        let out = on_packet(&mut r, &mut log, &me, p, ip(), 0);
        assert_eq!(out.event, None);
        assert!(!out.reply);
    }
    assert!(r.list().is_empty());
}

#[test]
fn noted_peer_is_news_once() {
    let mut r = Registry::default();
    assert!(matches!(
        note_peer(&mut r, info("a", "A"), ip(), 0),
        Some(CoreEvent::DeviceUp(_))
    ));
    assert_eq!(note_peer(&mut r, info("a", "A"), ip(), 1), None);
}

#[test]
fn pruning_tells_who_left() {
    let mut r = Registry::default();
    r.on_announce(info("a", "A"), ip(), 0);
    assert_eq!(
        prune_round(&mut r, 15_001),
        vec![CoreEvent::DeviceDown { id: "a".to_string(), name: "A".to_string() }]
    );
    assert!(prune_round(&mut r, 15_001).is_empty());
}

#[test]
fn announcements_come_often_at_first() {
    assert_eq!(announce_step(0), (2, 1));
    assert_eq!(announce_step(2), (2, 3));
    assert_eq!(announce_step(3), (10, 4));
}

#[test]
fn without_interfaces_the_default_one_is_used() {
    assert_eq!(outgoing_interfaces(vec![]), vec![(0, 0, 0, 0)]);
    assert_eq!(outgoing_interfaces(vec![(10, 0, 0, 1)]), vec![(10, 0, 0, 1)]);
}

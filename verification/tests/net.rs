use transfer_core::net::{
    acquire_instance_lock, choose_lan, common_prefix_bits, has_virtual_word, ipv4_interfaces,
    is_virtual_iface, lan_ipv4_interfaces, local_addr_for, local_ip_hint, local_ipv4_interfaces,
    nearest_addr, pick_free_port, pick_ip_hint, platform, Iface,
};
use transfer_core::proto::Addr;

fn iface(name: &str, addr: Addr, loopback: bool) -> Iface {
    Iface { name: name.to_string(), addr, loopback }
}

#[test]
fn prefix_bits() {
    assert_eq!(common_prefix_bits(0x0A_00_00_01, 0x0A_00_00_02), 30);
    assert_eq!(common_prefix_bits(0xC0_A8_08_01, 0xC0_A8_08_C8), 24);
    assert_eq!(common_prefix_bits(0xC0_A8_08_01, 0x0A_00_00_01), 0);
}

#[test]
fn virtual_names() {
    assert!(is_virtual_iface("EasyConnect Adapter"));
    assert!(is_virtual_iface("飞连 VPN Adapter"));
    assert!(is_virtual_iface("TAP-Windows Adapter V9"));
    assert!(is_virtual_iface("Clash TUN"));
    assert!(!is_virtual_iface("WLAN"));
    assert!(!is_virtual_iface("以太网"));
    assert!(!is_virtual_iface("Realtek PCIe GbE"));
}

#[test]
fn words_are_looked_for_in_lower_case() {
    assert!(has_virtual_word("vmnet8 adapter"));
    assert!(!has_virtual_word("VMNET8"));
    assert!(is_virtual_iface("VMNET8"));
    assert!(is_virtual_iface("my vmNet8 card"));
}

#[test]
fn equal_numbers_share_all_bits() {
    assert_eq!(common_prefix_bits(7, 7), 32);
    assert_eq!(common_prefix_bits(0, 0x8000_0000), 0);
    assert_eq!(common_prefix_bits(0, 1), 31);
}

#[test]
fn interfaces_of_the_local_network() {
    let list = vec![
        iface("lo", Addr::V4(127, 0, 0, 1), true),
        iface("eth0", Addr::V4(192, 168, 1, 5), false),
        iface("docker0", Addr::V4(172, 17, 0, 1), false),
        iface("eth1", Addr::V4(169, 254, 1, 1), false),
        iface("eth2", Addr::V6("fe80::1".to_string()), false),
    ];
    assert_eq!(
        ipv4_interfaces(&list),
        vec![(192, 168, 1, 5), (172, 17, 0, 1), (169, 254, 1, 1)]
    );
    assert_eq!(choose_lan(&list), vec![(192, 168, 1, 5)]);
}

#[test]
fn virtual_interfaces_are_better_than_none() {
    let list = vec![
        iface("docker0", Addr::V4(172, 17, 0, 1), false),
        iface("eth1", Addr::V4(169, 254, 1, 1), false),
    ];
    assert_eq!(choose_lan(&list), vec![(172, 17, 0, 1), (169, 254, 1, 1)]);
    let list = vec![
        iface("lo", Addr::V4(127, 0, 0, 1), true),
        iface("eth1", Addr::V4(169, 254, 1, 1), false),
    ];
    assert_eq!(choose_lan(&list), vec![(169, 254, 1, 1)]);
}

#[test]
fn nearest_interface_shares_most_bits() {
    let own = vec![(10, 0, 0, 1), (192, 168, 8, 1), (192, 168, 1, 1)];
    assert_eq!(nearest_addr(&own, &Addr::V4(192, 168, 8, 200)), Some((192, 168, 8, 1)));
    assert_eq!(nearest_addr(&own, &Addr::V6("::1".to_string())), None);
    assert_eq!(nearest_addr(&vec![], &Addr::V4(10, 0, 0, 2)), None);
}

#[test]
fn private_addresses_are_shown_first() {
    assert_eq!(pick_ip_hint(&vec![(8, 8, 8, 8), (172, 31, 0, 1)]), Some((172, 31, 0, 1)));
    assert_eq!(pick_ip_hint(&vec![(8, 8, 8, 8), (172, 32, 0, 1)]), Some((8, 8, 8, 8)));
    assert_eq!(pick_ip_hint(&vec![(10, 9, 8, 7), (192, 168, 0, 1)]), Some((10, 9, 8, 7)));
    assert_eq!(pick_ip_hint(&vec![]), None);
}

#[test]
fn interfaces_of_this_machine() {
    let all = local_ipv4_interfaces();
    assert!(all.iter().all(|ip| ip.0 != 127));
    for ip in lan_ipv4_interfaces() {
        assert!(all.contains(&ip));
    }
    if let Some(ip) = local_ip_hint() {
        assert!(all.contains(&ip));
    }
    if let Some(ip) = local_addr_for(&Addr::V4(10, 0, 0, 1)) {
        assert!(all.contains(&ip));
    }
}

#[test]
fn first_free_port_is_taken() {
    assert_eq!(pick_free_port(17878, 20, |p: u16| p >= 17880), Some(17880));
    assert_eq!(pick_free_port(17878, 20, |_p: u16| false), None);
    assert_eq!(pick_free_port(17878, 2, |p: u16| p == 17880), None);
    assert_eq!(pick_free_port(65535, 20, |p: u16| p == 65535), Some(65535));
    assert_eq!(pick_free_port(0, 20, |_p: u16| true), None);
}

#[test]
fn instances_are_numbered() {
    assert_eq!(acquire_instance_lock(|_p: u16| true), (Some(17877), 1));
    assert_eq!(acquire_instance_lock(|p: u16| p == 17875), (Some(17875), 3));
    assert_eq!(acquire_instance_lock(|p: u16| p <= 17867), (None, 99));
}

#[test]
fn platforms() {
    assert_eq!(platform("windows"), "windows");
    assert_eq!(platform("macos"), "mac");
    assert_eq!(platform("linux"), "linux");
    assert_eq!(platform("freebsd"), "linux");
}

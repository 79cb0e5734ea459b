//! The network interfaces of this machine.
//!
//! Private networks (VPN) and virtual machines bring interfaces of their own
//! that must not carry the traffic of the local network.

use vstd::prelude::*;
use vstd::string::*;

use crate::proto::{Addr, AddrView};
use crate::text;
use crate::text::{contains, same_text};

verus! {

// ---------------------------------------------------------------------------
// Virtual interfaces
// ---------------------------------------------------------------------------

/// What `str::to_lowercase` makes of a text.
pub uninterp spec fn lowercase_of(s: Seq<char>) -> Seq<char>;

pub open spec fn is_ascii_text(s: Seq<char>) -> bool {
    forall|i: int| 0 <= i < s.len() ==> (#[trigger] s[i]) as u32 <= 127
}

/// Calls `str::to_lowercase`. What it makes of letters beyond ASCII is left
/// to the tables of Unicode.
#[verifier::external_body]
fn to_lowercase(s: &str) -> (r: String)
    ensures
        r@ == lowercase_of(s@),
        is_ascii_text(s@) ==> r@ == text::lowered(s@),
{
    s.to_lowercase()
}

/// Whether a name in lower case holds a word that only the interfaces of
/// tunnels, private networks, proxies and virtual machines have.
pub open spec fn names_virtual(lower: Seq<char>) -> bool {
    ||| text::contains_text(lower, "tap"@)
    ||| text::contains_text(lower, "tun"@)
    ||| text::contains_text(lower, "wintun"@)
    ||| text::contains_text(lower, "wireguard"@)
    ||| text::contains_text(lower, "openvpn"@)
    ||| text::contains_text(lower, "tun2socks"@)
    ||| text::contains_text(lower, "easyconnect"@)
    ||| text::contains_text(lower, "sangfor"@)
    ||| text::contains_text(lower, "feilian"@)
    ||| text::contains_text(lower, "飞连"@)
    ||| text::contains_text(lower, "volcengine"@)
    ||| text::contains_text(lower, "cisco"@)
    ||| text::contains_text(lower, "anyconnect"@)
    ||| text::contains_text(lower, "globalprotect"@)
    ||| text::contains_text(lower, "forticlient"@)
    ||| text::contains_text(lower, "pulsesecure"@)
    ||| text::contains_text(lower, "vpn"@)
    ||| text::contains_text(lower, "tailscale"@)
    ||| text::contains_text(lower, "zerotier"@)
    ||| text::contains_text(lower, "hamachi"@)
    ||| text::contains_text(lower, "leaflet"@)
    ||| text::contains_text(lower, "tinc"@)
    ||| text::contains_text(lower, "clash"@)
    ||| text::contains_text(lower, "mihomo"@)
    ||| text::contains_text(lower, "sing-box"@)
    ||| text::contains_text(lower, "singbox"@)
    ||| text::contains_text(lower, "netch"@)
    ||| text::contains_text(lower, "sstap"@)
    ||| text::contains_text(lower, "virtualbox"@)
    ||| text::contains_text(lower, "vmnet"@)
    ||| text::contains_text(lower, "hyper-v"@)
    ||| text::contains_text(lower, "docker"@)
    ||| text::contains_text(lower, "wsl"@)
    ||| text::contains_text(lower, "veth"@)
}

pub fn has_virtual_word(lower: &str) -> (r: bool)
    ensures
        r == names_virtual(lower@),
{
    contains(lower, "tap")
        || contains(lower, "tun")
        || contains(lower, "wintun")
        || contains(lower, "wireguard")
        || contains(lower, "openvpn")
        || contains(lower, "tun2socks")
        || contains(lower, "easyconnect")
        || contains(lower, "sangfor")
        || contains(lower, "feilian")
        || contains(lower, "飞连")
        || contains(lower, "volcengine")
        || contains(lower, "cisco")
        || contains(lower, "anyconnect")
        || contains(lower, "globalprotect")
        || contains(lower, "forticlient")
        || contains(lower, "pulsesecure")
        || contains(lower, "vpn")
        || contains(lower, "tailscale")
        || contains(lower, "zerotier")
        || contains(lower, "hamachi")
        || contains(lower, "leaflet")
        || contains(lower, "tinc")
        || contains(lower, "clash")
        || contains(lower, "mihomo")
        || contains(lower, "sing-box")
        || contains(lower, "singbox")
        || contains(lower, "netch")
        || contains(lower, "sstap")
        || contains(lower, "virtualbox")
        || contains(lower, "vmnet")
        || contains(lower, "hyper-v")
        || contains(lower, "docker")
        || contains(lower, "wsl")
        || contains(lower, "veth")
}

pub fn is_virtual_iface(name: &str) -> (r: bool)
    ensures
        r == names_virtual(lowercase_of(name@)),
        is_ascii_text(name@) ==> r == names_virtual(text::lowered(name@)),
{
    let lower = to_lowercase(name);
    has_virtual_word(lower.as_str())
}

/// Whether a name of ASCII letters is that of a virtual interface does not
/// depend on their case.
pub proof fn law_case_does_not_matter(name: Seq<char>)
    requires
        is_ascii_text(name),
    ensures
        is_ascii_text(text::uppered(name)),
        names_virtual(text::lowered(text::uppered(name))) == names_virtual(text::lowered(name)),
{
    let up = text::uppered(name);
    assert forall|i: int| 0 <= i < up.len() implies (#[trigger] up[i]) as u32 <= 127 by {
        assert(up[i] == text::upper_of(name[i]));
        assert(name[i] as u32 <= 127);
    }
    assert(text::lowered(up) =~= text::lowered(name));
}

/// A word that makes a name virtual does so anywhere in the name.
pub proof fn law_word_counts_anywhere(before: Seq<char>, name: Seq<char>, after: Seq<char>)
    requires
        is_ascii_text(before),
        is_ascii_text(name),
        is_ascii_text(after),
    ensures
        is_ascii_text(before + name + after),
        names_virtual(text::lowered(name)) ==> names_virtual(
            text::lowered(before + name + after),
        ),
{
    let all = before + name + after;
    assert forall|i: int| 0 <= i < all.len() implies (#[trigger] all[i]) as u32 <= 127 by {
        if i < before.len() {
            assert(all[i] == before[i]);
        } else if i < before.len() + name.len() {
            assert(all[i] == name[i - before.len()]);
        } else {
            assert(all[i] == after[i - before.len() - name.len()]);
        }
    }
    let (b, n, a) = (text::lowered(before), text::lowered(name), text::lowered(after));
    assert(text::lowered(all) =~= b + n + a);
    text::lemma_contained_in_longer(b, n, a);
}

// ---------------------------------------------------------------------------
// Choosing interfaces
// ---------------------------------------------------------------------------

/// An interface with one of its addresses.
#[derive(Debug, PartialEq, Eq)]
pub struct Iface {
    pub name: String,
    pub addr: Addr,
    pub loopback: bool,
}

/// [`Iface`] as the contracts speak of it.
#[verifier::ext_equal]
pub struct IfaceView {
    pub name: Seq<char>,
    pub addr: AddrView,
    pub loopback: bool,
}

impl DeepView for Iface {
    type V = IfaceView;

    open spec fn deep_view(&self) -> IfaceView {
        IfaceView {
            name: self.name.deep_view(),
            addr: self.addr.deep_view(),
            loopback: self.loopback.deep_view(),
        }
    }
}

impl Clone for Iface {
    fn clone(&self) -> (r: Self)
        ensures
            r.deep_view() == self.deep_view(),
    {
        let r = Iface {
            name: self.name.clone(),
            addr: self.addr.clone(),
            loopback: self.loopback,
        };
        r
    }
}

/// The four octets of an address.
pub type Ipv4 = (u8, u8, u8, u8);

/// Calls `if_addrs::get_if_addrs` and hands out name, address and loopback
/// flag of each interface; nothing where they cannot be listed. Which
/// interfaces there are is a matter of the machine.
#[verifier::external_body]
fn list_interfaces() -> (r: Option<Vec<Iface>>) {
    let list = if_addrs::get_if_addrs().ok()?;
    let convert = |i: if_addrs::Interface| {
        let loopback = i.is_loopback();
        let addr = match &i.addr {
            if_addrs::IfAddr::V4(a) => {
                let o = a.ip.octets();
                Addr::V4(o[0], o[1], o[2], o[3])
            },
            if_addrs::IfAddr::V6(a) => Addr::V6(a.ip.to_string()),
        };
        Iface { name: i.name, addr, loopback }
    };
    Some(list.into_iter().map(convert).collect())
}

pub open spec fn octets_of(a: AddrView) -> Option<Ipv4> {
    match a {
        AddrView::V4(a, b, c, d) => Some((a, b, c, d)),
        AddrView::V6(_) => None,
    }
}

/// An address that a machine gave itself because nobody else did.
pub open spec fn is_self_assigned(ip: Ipv4) -> bool {
    ip.0 == 169 && ip.1 == 254
}

/// The addresses of version 4 that are not the loopback's.
pub open spec fn v4_of(list: Seq<IfaceView>) -> Seq<Ipv4>
    decreases list.len(),
{
    if list.len() == 0 {
        Seq::empty()
    } else {
        let head = v4_of(list.drop_last());
        let i = list.last();
        match octets_of(i.addr) {
            Some(ip) => if i.loopback {
                head
            } else {
                head.push(ip)
            },
            None => head,
        }
    }
}

/// Those of them that somebody assigned to an interface that is not virtual.
pub open spec fn physical_of(list: Seq<IfaceView>) -> Seq<Ipv4>
    decreases list.len(),
{
    if list.len() == 0 {
        Seq::empty()
    } else {
        let head = physical_of(list.drop_last());
        let i = list.last();
        match octets_of(i.addr) {
            Some(ip) => if i.loopback || is_self_assigned(ip) || names_virtual(
                lowercase_of(i.name),
            ) {
                head
            } else {
                head.push(ip)
            },
            None => head,
        }
    }
}

/// The addresses to use: those of physical interfaces, or where there are
/// none, all but the loopback's. Too many ways out are better than none.
pub open spec fn chosen_lan(list: Seq<IfaceView>) -> Seq<Ipv4> {
    if physical_of(list).len() == 0 {
        v4_of(list)
    } else {
        physical_of(list)
    }
}

impl Iface {
    fn octets(&self) -> (r: Option<Ipv4>)
        ensures
            r == octets_of(self.addr.deep_view()),
    {
        match &self.addr {
            Addr::V4(a, b, c, d) => Some((*a, *b, *c, *d)),
            Addr::V6(_) => None,
        }
    }
}

pub fn ipv4_interfaces(list: &Vec<Iface>) -> (r: Vec<Ipv4>)
    ensures
        r@ == v4_of(list.deep_view()),
{
    let ghost all = list.deep_view();
    let mut out: Vec<Ipv4> = Vec::new();
    let mut i: usize = 0;
    assert(all.take(0) =~= Seq::<IfaceView>::empty());
    while i < list.len()
        invariant
            all == list.deep_view(),
            i <= list@.len(),
            out@ == v4_of(all.take(i as int)),
        decreases list@.len() - i,
    {
        let f = &list[i];
        proof {
            assert(all.take(i + 1).drop_last() =~= all.take(i as int));
            assert(all[i as int] == f.deep_view());
        }
        match f.octets() {
            Some(ip) => {
                if !f.loopback {
                    out.push(ip);
                }
            },
            None => {},
        }
        i = i + 1;
    }
    assert(all.take(i as int) =~= all);
    out
}

fn physical_interfaces(list: &Vec<Iface>) -> (r: Vec<Ipv4>)
    ensures
        r@ == physical_of(list.deep_view()),
{
    let ghost all = list.deep_view();
    let mut out: Vec<Ipv4> = Vec::new();
    let mut i: usize = 0;
    assert(all.take(0) =~= Seq::<IfaceView>::empty());
    while i < list.len()
        invariant
            all == list.deep_view(),
            i <= list@.len(),
            out@ == physical_of(all.take(i as int)),
        decreases list@.len() - i,
    {
        let f = &list[i];
        proof {
            assert(all.take(i + 1).drop_last() =~= all.take(i as int));
            assert(all[i as int] == f.deep_view());
        }
        match f.octets() {
            Some(ip) => {
                if !f.loopback && !(ip.0 == 169 && ip.1 == 254) && !is_virtual_iface(
                    f.name.as_str(),
                ) {
                    out.push(ip);
                }
            },
            None => {},
        }
        i = i + 1;
    }
    assert(all.take(i as int) =~= all);
    out
}

/// The addresses to use among those of a list of interfaces.
pub fn choose_lan(list: &Vec<Iface>) -> (r: Vec<Ipv4>)
    ensures
        r@ == chosen_lan(list.deep_view()),
{
    let physical = physical_interfaces(list);
    if physical.len() == 0 {
        ipv4_interfaces(list)
    } else {
        physical
    }
}

/// Whether an interface has this address and is physical: not the loopback, not
/// virtual, and with an address that it did not give itself.
pub open spec fn is_physical(i: IfaceView, ip: Ipv4) -> bool {
    &&& !i.loopback
    &&& octets_of(i.addr) == Some(ip)
    &&& !is_self_assigned(ip)
    &&& !names_virtual(lowercase_of(i.name))
}

/// Where some interface is physical, every address that is chosen is the
/// address of such an interface.
pub proof fn law_physical_interfaces_come_first(list: Seq<IfaceView>)
    ensures
        physical_of(list).len() > 0 <==> exists|j: int, ip: Ipv4|
            0 <= j < list.len() && #[trigger] is_physical(list[j], ip),
        physical_of(list).len() > 0 ==> forall|i: int|
            0 <= i < chosen_lan(list).len() ==> exists|j: int|
                0 <= j < list.len() && is_physical(
                    #[trigger] list[j],
                    #[trigger] chosen_lan(list)[i],
                ),
    decreases list.len(),
{
    if list.len() > 0 {
        let t = list.drop_last();
        law_physical_interfaces_come_first(t);
        let h = physical_of(t);
        let k = physical_of(list);
        let last = list.len() - 1;
        assert forall|i: int| 0 <= i < k.len() implies exists|j: int|
            0 <= j < list.len() && is_physical(#[trigger] list[j], #[trigger] k[i]) by {
            if i < h.len() {
                assert(k[i] == h[i] && h == chosen_lan(t));
                let j = choose|j: int|
                    0 <= j < t.len() && is_physical(#[trigger] t[j], chosen_lan(t)[i]);
                assert(list[j] == t[j]);
            } else {
                assert(is_physical(list[last], k[i]));
            }
        }
        if k.len() > 0 {
            assert(k == chosen_lan(list));
            let j = choose|j: int|
                0 <= j < list.len() && is_physical(#[trigger] list[j], k[0]);
            assert(is_physical(list[j], k[0]));
        }
        if exists|j: int, ip: Ipv4| 0 <= j < list.len() && #[trigger] is_physical(list[j], ip) {
            let (j, ip) = choose|j: int, ip: Ipv4|
                0 <= j < list.len() && #[trigger] is_physical(list[j], ip);
            if j < last {
                assert(is_physical(t[j], ip));
            }
        }
    }
}

/// No address is chosen only where no interface but the loopback has one.
pub proof fn law_some_way_out(list: Seq<IfaceView>)
    ensures
        chosen_lan(list).len() == 0 <==> v4_of(list).len() == 0,
    decreases list.len(),
{
    if list.len() > 0 {
        law_some_way_out(list.drop_last());
    }
}

/// The addresses of this machine that the local network is reached by: those
/// that are chosen among its interfaces, whichever it has.
pub fn lan_ipv4_interfaces() -> (r: Vec<Ipv4>)
    ensures
        exists|list: Seq<IfaceView>| r@ == #[trigger] chosen_lan(list),
{
    match list_interfaces() {
        Some(list) => choose_lan(&list),
        None => {
            assert(chosen_lan(Seq::empty()) =~= Seq::<Ipv4>::empty());
            Vec::new()
        },
    }
}

/// All addresses of version 4 of this machine but the loopback's, whichever
/// interfaces it has.
pub fn local_ipv4_interfaces() -> (r: Vec<Ipv4>)
    ensures
        exists|list: Seq<IfaceView>| r@ == #[trigger] v4_of(list),
{
    match list_interfaces() {
        Some(list) => ipv4_interfaces(&list),
        None => {
            assert(v4_of(Seq::empty()) =~= Seq::<Ipv4>::empty());
            Vec::new()
        },
    }
}

// ---------------------------------------------------------------------------
// The way to a peer
// ---------------------------------------------------------------------------

/// Whether two addresses agree in their first `n` bits.
pub open spec fn share_bits(a: u32, b: u32, n: u32) -> bool {
    n <= 32 && (n == 0 || a >> ((32 - n) as u32) == b >> ((32 - n) as u32))
}

/// How many of their first bits two addresses share.
pub open spec fn prefix_len(a: u32, b: u32) -> u32 {
    vstd::std_specs::bits::u32_leading_zeros(a ^ b)
}

/// It is the largest number of first bits that they share.
pub proof fn law_prefix_is_longest(a: u32, b: u32)
    ensures
        share_bits(a, b, prefix_len(a, b)),
        forall|n: u32| prefix_len(a, b) < n ==> !#[trigger] share_bits(a, b, n),
{
    let x = a ^ b;
    let k = prefix_len(a, b);
    vstd::std_specs::bits::axiom_u32_leading_zeros(x);
    if k > 0 {
        let s = (32 - k) as u32;
        if k == 32 {
            assert(a ^ b == 0 ==> a == b) by (bit_vector);
        } else {
            assert((a ^ b) >> s == 0 ==> a >> s == b >> s) by (bit_vector);
        }
    }
    assert forall|n: u32| k < n implies !#[trigger] share_bits(a, b, n) by {
        if n <= 32 {
            let t = (32 - n) as u32;
            let p = (31 - k) as u32;
            assert(t <= p && p <= 31 && (x >> p) & 1 != 0 && x == a ^ b ==> a >> t != b >> t)
                by (bit_vector);
        }
    }
}

pub fn common_prefix_bits(a: u32, b: u32) -> (r: u32)
    ensures
        r == prefix_len(a, b),
        share_bits(a, b, r),
        r < 32 ==> !share_bits(a, b, (r + 1) as u32),
{
    proof {
        law_prefix_is_longest(a, b);
    }
    (a ^ b).leading_zeros()
}

pub open spec fn ip_number(ip: Ipv4) -> int {
    ip.0 * 0x100_0000 + ip.1 * 0x1_0000 + ip.2 * 0x100 + ip.3
}

fn ip_to_u32(ip: Ipv4) -> (r: u32)
    ensures
        r == ip_number(ip),
{
    ip.0 as u32 * 0x100_0000 + ip.1 as u32 * 0x1_0000 + ip.2 as u32 * 0x100 + ip.3 as u32
}

pub open spec fn near(a: Ipv4, b: Ipv4) -> u32 {
    prefix_len(ip_number(a) as u32, ip_number(b) as u32)
}

/// The address that shares most of its first bits with the peer's, and the
/// last of several; none that shares fewer than 16.
pub open spec fn nearest(ifaces: Seq<Ipv4>, peer: Ipv4) -> Option<Ipv4>
    decreases ifaces.len(),
{
    if ifaces.len() == 0 {
        None
    } else {
        let best = nearest(ifaces.drop_last(), peer);
        let ip = ifaces.last();
        if near(ip, peer) >= 16 && (best is None || near(ip, peer) >= near(
            best->Some_0,
            peer,
        )) {
            Some(ip)
        } else {
            best
        }
    }
}

/// No address shares more bits with the peer than the one that is taken.
pub proof fn law_nearest_is_best(ifaces: Seq<Ipv4>, peer: Ipv4)
    ensures
        match nearest(ifaces, peer) {
            Some(ip) => near(ip, peer) >= 16 && ifaces.contains(ip) && forall|i: int|
                0 <= i < ifaces.len() ==> near(#[trigger] ifaces[i], peer) <= near(ip, peer),
            None => forall|i: int|
                0 <= i < ifaces.len() ==> near(#[trigger] ifaces[i], peer) < 16,
        },
    decreases ifaces.len(),
{
    if ifaces.len() > 0 {
        let t = ifaces.drop_last();
        law_nearest_is_best(t, peer);
        assert forall|i: int| 0 <= i < ifaces.len() - 1 implies #[trigger] ifaces[i] == t[i] by {}
        assert(ifaces[ifaces.len() - 1] == ifaces.last());
        match nearest(t, peer) {
            Some(ip) => {
                let k = choose|k: int| 0 <= k < t.len() && t[k] == ip;
                assert(ifaces[k] == ip);
            },
            None => {},
        }
    }
}

/// The address among `ifaces` that a peer is reached from.
pub fn nearest_addr(ifaces: &Vec<Ipv4>, peer: &Addr) -> (r: Option<Ipv4>)
    ensures
        r == (match octets_of(peer.deep_view()) {
            Some(p) => nearest(ifaces@, p),
            None => None,
        }),
{
    let p: Ipv4 = match peer {
        Addr::V4(a, b, c, d) => (*a, *b, *c, *d),
        Addr::V6(_) => {
            return None;
        },
    };
    let target = ip_to_u32(p);
    let mut best: Option<Ipv4> = None;
    let mut i: usize = 0;
    assert(ifaces@.take(0) =~= Seq::<Ipv4>::empty());
    while i < ifaces.len()
        invariant
            i <= ifaces@.len(),
            target == ip_number(p),
            best == nearest(ifaces@.take(i as int), p),
        decreases ifaces@.len() - i,
    {
        let ip = ifaces[i];
        let bits = common_prefix_bits(ip_to_u32(ip), target);
        proof {
            assert(ifaces@.take(i + 1).drop_last() =~= ifaces@.take(i as int));
        }
        if bits >= 16 {
            match best {
                None => {
                    best = Some(ip);
                },
                Some(b) => {
                    if bits >= common_prefix_bits(ip_to_u32(b), target) {
                        best = Some(ip);
                    }
                },
            }
        }
        i = i + 1;
    }
    assert(ifaces@.take(i as int) =~= ifaces@);
    best
}

/// The address of this machine that a peer is reached from, where they are on
/// one network: the nearest of those that the local network is reached by,
/// whichever interfaces there are.
pub fn local_addr_for(peer: &Addr) -> (r: Option<Ipv4>)
    ensures
        match octets_of(peer.deep_view()) {
            Some(p) => exists|list: Seq<IfaceView>| r == nearest(#[trigger] chosen_lan(list), p),
            None => r is None,
        },
        r matches Some(ip) ==> near(ip, octets_of(peer.deep_view())->Some_0) >= 16,
{
    let ifaces = lan_ipv4_interfaces();
    proof {
        match octets_of(peer.deep_view()) {
            Some(p) => {
                law_nearest_is_best(ifaces@, p);
            },
            None => {},
        }
    }
    nearest_addr(&ifaces, peer)
}

/// Whether an address belongs to a private network.
pub open spec fn is_private(ip: Ipv4) -> bool {
    ||| ip.0 == 192 && ip.1 == 168
    ||| ip.0 == 10
    ||| ip.0 == 172 && 16 <= ip.1 <= 31
}

/// The first private address, else the first one.
pub open spec fn shown_ip(ips: Seq<Ipv4>) -> Option<Ipv4> {
    if exists|i: int| is_first_private(ips, i) {
        Some(ips[choose|i: int| is_first_private(ips, i)])
    } else if ips.len() > 0 {
        Some(ips[0])
    } else {
        None
    }
}

pub open spec fn is_first_private(ips: Seq<Ipv4>, i: int) -> bool {
    &&& 0 <= i < ips.len()
    &&& is_private(ips[i])
    &&& forall|j: int| 0 <= j < i ==> !is_private(#[trigger] ips[j])
}

pub fn pick_ip_hint(ips: &Vec<Ipv4>) -> (r: Option<Ipv4>)
    ensures
        r == shown_ip(ips@),
{
    let mut i: usize = 0;
    while i < ips.len()
        invariant
            i <= ips@.len(),
            forall|j: int| 0 <= j < i ==> !is_private(#[trigger] ips@[j]),
        decreases ips@.len() - i,
    {
        let o = ips[i];
        if (o.0 == 192 && o.1 == 168) || o.0 == 10 || (o.0 == 172 && 16 <= o.1 && o.1 <= 31) {
            proof {
                assert(is_first_private(ips@, i as int));
                let k = choose|k: int| is_first_private(ips@, k);
                assert(is_first_private(ips@, k));
                assert(k == i);
            }
            return Some(o);
        }
        i = i + 1;
    }
    proof {
        if exists|k: int| is_first_private(ips@, k) {
            let k = choose|k: int| is_first_private(ips@, k);
            assert(!is_private(ips@[k]));
        }
    }
    if ips.len() > 0 {
        Some(ips[0])
    } else {
        None
    }
}

/// The address of this machine to show to the user, whichever interfaces it
/// has.
pub fn local_ip_hint() -> (r: Option<Ipv4>)
    ensures
        exists|list: Seq<IfaceView>| r == shown_ip(#[trigger] v4_of(list)),
{
    let ips = local_ipv4_interfaces();
    pick_ip_hint(&ips)
}

// ---------------------------------------------------------------------------
// Ports
// ---------------------------------------------------------------------------

pub open spec fn port_at(start: u16, off: int) -> int {
    if start + off > 65535 {
        65535
    } else {
        start + off
    }
}

/// The first of `tries` ports from `start` on that `can_bind` says can be
/// bound; port 0 is none.
pub fn pick_free_port<F: Fn(u16) -> bool>(start: u16, tries: u16, can_bind: F) -> (r: Option<u16>)
    requires
        forall|p: u16| call_requires(can_bind, (p,)),
    ensures
        match r {
            Some(p) => exists|off: int|
                #![trigger port_at(start, off)]
                0 <= off < tries && p == port_at(start, off) && p != 0 && call_ensures(
                    can_bind,
                    (p,),
                    true,
                ) && forall|k: int|
                    0 <= k < off ==> call_ensures(
                        can_bind,
                        (#[trigger] port_at(start, k) as u16,),
                        false,
                    ),
            None => start == 0 || forall|k: int|
                0 <= k < tries ==> call_ensures(
                    can_bind,
                    (#[trigger] port_at(start, k) as u16,),
                    false,
                ),
        },
{
    let mut off: u16 = 0;
    while off < tries
        invariant
            forall|p: u16| call_requires(can_bind, (p,)),
            off <= tries,
            off > 0 ==> start != 0,
            forall|k: int|
                0 <= k < off ==> call_ensures(
                    can_bind,
                    (#[trigger] port_at(start, k) as u16,),
                    false,
                ),
        decreases tries - off,
    {
        let port: u16 = if off > 65535 - start {
            65535
        } else {
            start + off
        };
        assert(port == port_at(start, off as int));
        if port == 0 {
            return None;
        }
        if can_bind(port) {
            return Some(port);
        }
        off = off + 1;
    }
    None
}

/// The port that instance `n` of the program holds, counted from 0.
pub open spec fn lock_port(n: int) -> int {
    17877 - n
}

/// The number of this instance: it holds the first of ten ports that
/// `can_bind` says can be bound, and counts from 1; without any it is 99.
pub fn acquire_instance_lock<F: Fn(u16) -> bool>(can_bind: F) -> (r: (Option<u16>, u32))
    requires
        forall|p: u16| call_requires(can_bind, (p,)),
    ensures
        match r.0 {
            Some(p) => 1 <= r.1 <= 10 && p == lock_port(r.1 - 1) && call_ensures(
                can_bind,
                (p,),
                true,
            ) && forall|k: int|
                0 <= k < r.1 - 1 ==> call_ensures(
                    can_bind,
                    (#[trigger] lock_port(k) as u16,),
                    false,
                ),
            None => r.1 == 99 && forall|k: int|
                0 <= k < 10 ==> call_ensures(can_bind, (#[trigger] lock_port(k) as u16,), false),
        },
{
    let mut i: u32 = 0;
    while i < 10
        invariant
            forall|p: u16| call_requires(can_bind, (p,)),
            i <= 10,
            forall|k: int|
                0 <= k < i ==> call_ensures(can_bind, (#[trigger] lock_port(k) as u16,), false),
        decreases 10 - i,
    {
        let port: u16 = 17877 - (i as u16);
        assert(port == lock_port(i as int));
        if can_bind(port) {
            return (Some(port), i + 1);
        }
        i = i + 1;
    }
    (None, 99)
}

/// How an operating system is called in announcements.
pub open spec fn platform_name(os: Seq<char>) -> Seq<char> {
    if os == "windows"@ {
        "windows"@
    } else if os == "macos"@ {
        "mac"@
    } else {
        "linux"@
    }
}

pub fn platform(os: &str) -> (r: &'static str)
    ensures
        r@ == platform_name(os@),
{
    if same_text(os, "windows") {
        "windows"
    } else if same_text(os, "macos") {
        "mac"
    } else {
        "linux"
    }
}

// ---------------------------------------------------------------------------
// Laws of addresses and ports
// ---------------------------------------------------------------------------

/// Every address of version 4 counts that is not the loopback's, and nothing
/// else does.
pub proof fn law_every_address_counts(a: Seq<IfaceView>, b: Seq<IfaceView>, i: IfaceView)
    ensures
        v4_of(a + b) == v4_of(a) + v4_of(b),
        physical_of(a + b) == physical_of(a) + physical_of(b),
        i.loopback || i.addr is V6 ==> v4_of(seq![i]).len() == 0 && physical_of(seq![i]).len() == 0,
        !i.loopback && i.addr is V4 ==> v4_of(seq![i]) == seq![
            (i.addr->V4_0, i.addr->V4_1, i.addr->V4_2, i.addr->V4_3),
        ],
        i.addr is V4 && i.addr->V4_0 == 169 && i.addr->V4_1 == 254 ==> physical_of(seq![i]).len()
            == 0,
        !i.loopback && i.addr is V4 && !(i.addr->V4_0 == 169 && i.addr->V4_1 == 254)
            && !names_virtual(lowercase_of(i.name)) ==> physical_of(seq![i]) == v4_of(seq![i]),
        names_virtual(lowercase_of(i.name)) ==> physical_of(seq![i]).len() == 0,
    decreases b.len(),
{
    let all = a + b;
    if b.len() == 0 {
        assert(all =~= a);
        assert(v4_of(a) + v4_of(b) =~= v4_of(a));
        assert(physical_of(a) + physical_of(b) =~= physical_of(a));
    } else {
        law_every_address_counts(a, b.drop_last(), i);
        assert(all.drop_last() =~= a + b.drop_last());
        assert(all.last() == b.last());
        assert(v4_of(all) =~= v4_of(a) + v4_of(b));
        assert(physical_of(all) =~= physical_of(a) + physical_of(b));
    }
    let e = Seq::<IfaceView>::empty();
    let s = seq![i];
    assert(s.drop_last() =~= e);
    assert(s.last() == i);
    assert(v4_of(e) =~= Seq::<Ipv4>::empty());
    assert(physical_of(e) =~= Seq::<Ipv4>::empty());
    if !i.loopback && i.addr is V4 {
        assert(v4_of(s) =~= seq![(i.addr->V4_0, i.addr->V4_1, i.addr->V4_2, i.addr->V4_3)]);
        assert(physical_of(s) =~= v4_of(s) || physical_of(s).len() == 0);
    }
}

/// The user is shown a private address where there is one, and the first of
/// several; else the first address there is.
pub proof fn law_private_address_is_shown(ips: Seq<Ipv4>, i: int)
    requires
        0 <= i < ips.len(),
        forall|j: int|
            0 <= j < i ==> !((#[trigger] ips[j]).0 == 10 || (ips[j].0 == 192 && ips[j].1 == 168)
                || (ips[j].0 == 172 && 16 <= ips[j].1 <= 31)),
    ensures
        ips[i].0 == 10 || (ips[i].0 == 192 && ips[i].1 == 168) || (ips[i].0 == 172 && 16 <= ips[i].1
            <= 31) ==> shown_ip(ips) == Some(ips[i]),
        i == ips.len() - 1 && !is_private(ips[i]) ==> shown_ip(ips) == Some(ips[0]),
{
    assert forall|j: int| 0 <= j < i implies !is_private(#[trigger] ips[j]) by {}
    if is_private(ips[i]) {
        assert(is_first_private(ips, i));
        let k = choose|k: int| is_first_private(ips, k);
        assert(is_first_private(ips, k));
        assert(k == i);
    } else if i == ips.len() - 1 {
        assert forall|k: int| !is_first_private(ips, k) by {}
    }
}

/// Ports are tried upwards, one by one, and never beyond the last one there
/// is.
pub proof fn law_ports_are_tried_upwards(start: u16, off: int)
    requires
        0 <= off,
    ensures
        port_at(start, 0) == start,
        start <= port_at(start, off) <= 65535,
        port_at(start, off) < 65535 ==> port_at(start, off + 1) == port_at(start, off) + 1,
{
}

/// Each instance holds a port of its own, which is none that devices speak
/// on.
pub proof fn law_locks_are_apart(a: int, b: int)
    requires
        0 <= a < b < 10,
    ensures
        lock_port(a) != lock_port(b),
        0 < lock_port(a) < 17878,
        0 < lock_port(b) < 17878,
{
}

} // verus!

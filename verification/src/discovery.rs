//! Finding the devices of the local network.
//!
//! Devices announce themselves by multicast and answer each announcement with
//! one of their own. The registry holds what was heard of each device.

use vstd::prelude::*;
use vstd::string::*;

use crate::proto::{
    Addr, AddrView, CoreEvent, CoreEventView, Device, DeviceInfo, DeviceInfoView, DeviceView,
    DiscoveryPacket, DEVICE_TIMEOUT_SECS, PROTOCOL_VERSION,
};
use crate::seqs;
use crate::text::same_text;

verus! {

/// How long an offline device stays in the registry.
pub const FORGET_AFTER_MS: i64 = 120_000;

/// A device is answered at most once in this time.
pub const REPLY_INTERVAL_MS: i64 = 2000;

// ---------------------------------------------------------------------------
// Registry
// ---------------------------------------------------------------------------

/// No two entries have the same id.
pub open spec fn ids_unique(s: Seq<DeviceView>) -> bool {
    forall|i: int, j: int|
        0 <= i < j < s.len() ==> (#[trigger] s[i]).info.id != (#[trigger] s[j]).info.id
}

pub open spec fn is_at(s: Seq<DeviceView>, id: Seq<char>, i: int) -> bool {
    0 <= i < s.len() && s[i].info.id == id
}

pub open spec fn has_id(s: Seq<DeviceView>, id: Seq<char>) -> bool {
    exists|i: int| is_at(s, id, i)
}

/// Where the entry with this id stands.
pub open spec fn place_of(s: Seq<DeviceView>, id: Seq<char>) -> int {
    choose|i: int| is_at(s, id, i)
}

pub open spec fn lookup(s: Seq<DeviceView>, id: Seq<char>) -> Option<DeviceView> {
    if has_id(s, id) {
        Some(s[place_of(s, id)])
    } else {
        None
    }
}

/// What an earlier installation left behind: another id at the same address,
/// offline.
pub open spec fn is_ghost(d: DeviceView, id: Seq<char>, addr: AddrView) -> bool {
    d.info.id != id && d.addr == addr && !d.online
}

pub open spec fn without_ghosts(s: Seq<DeviceView>, id: Seq<char>, addr: AddrView) -> Seq<
    DeviceView,
>
    decreases s.len(),
{
    if s.len() == 0 {
        Seq::empty()
    } else {
        let head = without_ghosts(s.drop_last(), id, addr);
        if is_ghost(s.last(), id, addr) {
            head
        } else {
            head.push(s.last())
        }
    }
}

pub open spec fn seen_device(info: DeviceInfoView, addr: AddrView, now: i64) -> DeviceView {
    DeviceView { info, addr, online: true, last_seen_ms: now }
}

/// The registry after an announcement.
pub open spec fn after_announce(
    s: Seq<DeviceView>,
    info: DeviceInfoView,
    addr: AddrView,
    now: i64,
) -> Seq<DeviceView> {
    let k = without_ghosts(s, info.id, addr);
    if has_id(k, info.id) {
        k.update(place_of(k, info.id), seen_device(info, addr, now))
    } else {
        k.push(seen_device(info, addr, now))
    }
}

/// Whether an announcement is news: of a device that was unknown, was
/// offline, or says something else of itself than before.
pub open spec fn is_news(s: Seq<DeviceView>, info: DeviceInfoView) -> bool {
    match lookup(s, info.id) {
        Some(d) => d.info != info || !d.online,
        None => true,
    }
}

pub open spec fn set_offline(d: DeviceView) -> DeviceView {
    DeviceView { online: false, ..d }
}

/// The registry after a device has said goodbye.
pub open spec fn after_bye(s: Seq<DeviceView>, id: Seq<char>) -> Seq<DeviceView> {
    match lookup(s, id) {
        Some(d) => s.update(place_of(s, id), set_offline(d)),
        None => s,
    }
}

/// Whether a device has not been heard of for too long to count as online.
pub open spec fn is_silent(d: DeviceView, now: i64) -> bool {
    now - d.last_seen_ms > DEVICE_TIMEOUT_SECS * 1000
}

/// Whether an offline device has been silent for so long that it is forgotten.
pub open spec fn is_forgotten(d: DeviceView, now: i64) -> bool {
    !d.online && now - d.last_seen_ms > FORGET_AFTER_MS
}

pub open spec fn checked(d: DeviceView, now: i64) -> DeviceView {
    DeviceView { online: d.online && !is_silent(d, now), ..d }
}

/// The registry after silent devices went offline and old entries were
/// forgotten.
pub open spec fn after_prune(s: Seq<DeviceView>, now: i64) -> Seq<DeviceView>
    decreases s.len(),
{
    if s.len() == 0 {
        Seq::empty()
    } else {
        let head = after_prune(s.drop_last(), now);
        let d = checked(s.last(), now);
        if is_forgotten(d, now) {
            head
        } else {
            head.push(d)
        }
    }
}

/// Id and name of the devices that went offline.
pub open spec fn gone_silent(s: Seq<DeviceView>, now: i64) -> Seq<(Seq<char>, Seq<char>)>
    decreases s.len(),
{
    if s.len() == 0 {
        Seq::empty()
    } else {
        let head = gone_silent(s.drop_last(), now);
        let d = s.last();
        if d.online && is_silent(d, now) {
            head.push((d.info.id, d.info.name))
        } else {
            head
        }
    }
}

/// A sign of life from an address keeps online devices online; it brings
/// nobody back.
pub open spec fn after_touch(s: Seq<DeviceView>, addr: AddrView, now: i64) -> Seq<DeviceView> {
    Seq::new(
        s.len(),
        |i: int|
            if s[i].addr == addr && s[i].online {
                DeviceView { last_seen_ms: now, ..s[i] }
            } else {
                s[i]
            },
    )
}

/// Newest first.
pub open spec fn is_by_last_seen(s: Seq<DeviceView>) -> bool {
    forall|i: int, j: int|
        0 <= i <= j < s.len() ==> (#[trigger] s[i]).last_seen_ms >= (#[trigger] s[j]).last_seen_ms
}

/// The devices that were heard of, one entry per id.
#[derive(Debug)]
pub struct Registry {
    pub devices: Vec<Device>,
}

impl View for Registry {
    type V = Seq<DeviceView>;

    open spec fn view(&self) -> Seq<DeviceView> {
        self.devices.deep_view()
    }
}

impl Default for Registry {
    fn default() -> (r: Self)
        ensures
            r@ == Seq::<DeviceView>::empty(),
            r.wf(),
    {
        let r = Registry { devices: Vec::new() };
        assert(r@ =~= Seq::<DeviceView>::empty());
        r
    }
}

proof fn lemma_without_ghosts(s: Seq<DeviceView>, id: Seq<char>, addr: AddrView)
    requires
        ids_unique(s),
    ensures
        ids_unique(without_ghosts(s, id, addr)),
        forall|i: int|
            0 <= i < without_ghosts(s, id, addr).len() ==> s.contains(
                #[trigger] without_ghosts(s, id, addr)[i],
            ),
    decreases s.len(),
{
    if s.len() > 0 {
        let t = s.drop_last();
        assert(ids_unique(t)) by {
            assert forall|i: int, j: int| 0 <= i < j < t.len() implies (#[trigger] t[i]).info.id
                != (#[trigger] t[j]).info.id by {
                assert(s[i].info.id != s[j].info.id);
            }
        }
        lemma_without_ghosts(t, id, addr);
        let h = without_ghosts(t, id, addr);
        let k = without_ghosts(s, id, addr);
        assert forall|i: int| 0 <= i < k.len() implies s.contains(#[trigger] k[i]) by {
            if i < h.len() {
                assert(k[i] == h[i]);
                let m = choose|m: int| 0 <= m < t.len() && t[m] == h[i];
                assert(s[m] == k[i]);
            } else {
                assert(s[s.len() - 1] == k[i]);
            }
        }
        assert forall|i: int, j: int| 0 <= i < j < k.len() implies (#[trigger] k[i]).info.id
            != (#[trigger] k[j]).info.id by {
            assert(k[i] == h[i]);
            if j < h.len() {
                assert(k[j] == h[j]);
            } else {
                let m = choose|m: int| 0 <= m < t.len() && t[m] == h[i];
                assert(s[m] == k[i]);
                assert(s[s.len() - 1] == k[j]);
            }
        }
    }
}

/// A device with the announced id survives as it is.
proof fn lemma_without_ghosts_keeps(s: Seq<DeviceView>, id: Seq<char>, addr: AddrView)
    requires
        ids_unique(s),
    ensures
        lookup(without_ghosts(s, id, addr), id) == lookup(s, id),
{
    lemma_without_ghosts(s, id, addr);
    let k = without_ghosts(s, id, addr);
    if has_id(s, id) {
        let i = place_of(s, id);
        lemma_kept_entry(s, id, addr, i);
        let j = choose|j: int| 0 <= j < k.len() && k[j] == s[i];
        assert(is_at(k, id, j));
        let m = place_of(k, id);
        assert(m == j);
    } else if has_id(k, id) {
        let j = place_of(k, id);
        assert(s.contains(k[j]));
        let i = choose|i: int| 0 <= i < s.len() && s[i] == k[j];
        assert(is_at(s, id, i));
    }
}

proof fn lemma_kept_entry(s: Seq<DeviceView>, id: Seq<char>, addr: AddrView, i: int)
    requires
        0 <= i < s.len(),
        !is_ghost(s[i], id, addr),
    ensures
        without_ghosts(s, id, addr).contains(s[i]),
    decreases s.len(),
{
    let k = without_ghosts(s, id, addr);
    let t = s.drop_last();
    let h = without_ghosts(t, id, addr);
    if i == s.len() - 1 {
        assert(k[k.len() - 1] == s[i]);
    } else {
        lemma_kept_entry(t, id, addr, i);
        let j = choose|j: int| 0 <= j < h.len() && h[j] == t[i];
        assert(k[j] == s[i]);
    }
}

proof fn lemma_update_keeps_unique(s: Seq<DeviceView>, p: int, d: DeviceView)
    requires
        ids_unique(s),
        0 <= p < s.len(),
        d.info.id == s[p].info.id,
    ensures
        ids_unique(s.update(p, d)),
{
    let u = s.update(p, d);
    assert forall|i: int, j: int| 0 <= i < j < u.len() implies (#[trigger] u[i]).info.id
        != (#[trigger] u[j]).info.id by {
        assert(s[i].info.id != s[j].info.id);
    }
}

impl Registry {
    pub open spec fn wf(&self) -> bool {
        ids_unique(self@)
    }

    fn find(&self, id: &str) -> (r: Option<usize>)
        requires
            self.wf(),
        ensures
            match r {
                Some(i) => has_id(self@, id@) && place_of(self@, id@) == i && i
                    < self.devices@.len(),
                None => !has_id(self@, id@),
            },
    {
        let mut i: usize = 0;
        while i < self.devices.len()
            invariant
                self.wf(),
                i <= self.devices@.len(),
                forall|k: int| 0 <= k < i ==> (#[trigger] self@[k]).info.id != id@,
            decreases self.devices@.len() - i,
        {
            if same_text(self.devices[i].info.id.as_str(), id) {
                proof {
                    assert(is_at(self@, id@, i as int));
                    let p = place_of(self@, id@);
                    assert(is_at(self@, id@, p));
                    assert(self@[p].info.id == self@[i as int].info.id);
                }
                return Some(i);
            }
            i = i + 1;
        }
        None
    }

    fn drop_ghosts(&mut self, id: &str, addr: &Addr)
        ensures
            final(self)@ == without_ghosts(old(self)@, id@, addr.deep_view()),
    {
        let ghost all = self@;
        let mut kept: Vec<Device> = Vec::new();
        let mut i: usize = 0;
        assert(kept.deep_view() =~= Seq::<DeviceView>::empty());
        while i < self.devices.len()
            invariant
                all == self@,
                i <= self.devices@.len(),
                kept.deep_view() == without_ghosts(all.take(i as int), id@, addr.deep_view()),
            decreases self.devices@.len() - i,
        {
            let d = &self.devices[i];
            let ghost before = kept.deep_view();
            proof {
                assert(all.take(i + 1).drop_last() =~= all.take(i as int));
                assert(all[i as int] == d.deep_view());
            }
            if same_text(d.info.id.as_str(), id) || !d.addr.same(addr) || d.online {
                kept.push(d.clone());
                assert(kept.deep_view() =~= before.push(all[i as int]));
            }
            i = i + 1;
        }
        assert(all.take(i as int) =~= all);
        self.devices = kept;
    }

    /// Takes an announcement in. The device comes back where that is news.
    pub fn on_announce(&mut self, info: DeviceInfo, addr: Addr, now_ms: i64) -> (r: Option<Device>)
        requires
            old(self).wf(),
        ensures
            final(self).wf(),
            final(self)@ == after_announce(
                old(self)@,
                info.deep_view(),
                addr.deep_view(),
                now_ms,
            ),
            r.deep_view() == (if is_news(old(self)@, info.deep_view()) {
                Some(seen_device(info.deep_view(), addr.deep_view(), now_ms))
            } else {
                None
            }),
    {
        proof {
            lemma_without_ghosts(self@, info.id@, addr.deep_view());
            lemma_without_ghosts_keeps(self@, info.id@, addr.deep_view());
        }
        self.drop_ghosts(info.id.as_str(), &addr);
        let ghost kept = self@;
        let dev = Device { info, addr, online: true, last_seen_ms: now_ms };
        match self.find(dev.info.id.as_str()) {
            Some(i) => {
                let old_dev = &self.devices[i];
                let changed = !old_dev.info.same(&dev.info) || !old_dev.online;
                assert(kept[i as int] == old_dev.deep_view());
                let copy = dev.clone();
                self.devices[i] = copy;
                assert(self@ =~= kept.update(i as int, dev.deep_view()));
                proof {
                    lemma_update_keeps_unique(kept, i as int, dev.deep_view());
                }
                if changed {
                    Some(dev)
                } else {
                    None
                }
            },
            None => {
                let copy = dev.clone();
                self.devices.push(copy);
                assert(self@ =~= kept.push(dev.deep_view()));
                proof {
                    assert forall|i: int, j: int| 0 <= i < j < self@.len() implies (
                    #[trigger] self@[i]).info.id != (#[trigger] self@[j]).info.id by {
                        if j == kept.len() {
                            if self@[i].info.id == dev.info.id@ {
                                assert(is_at(kept, dev.info.id@, i));
                            }
                        }
                    }
                }
                Some(dev)
            },
        }
    }

    /// Takes a goodbye in. Id and name come back where the device was online.
    pub fn on_bye(&mut self, id: &str) -> (r: Option<(String, String)>)
        requires
            old(self).wf(),
        ensures
            final(self).wf(),
            final(self)@ == after_bye(old(self)@, id@),
            r.deep_view() == (match lookup(old(self)@, id@) {
                Some(d) => if d.online {
                    Some((id@, d.info.name))
                } else {
                    None
                },
                None => None,
            }),
    {
        let ghost all = self@;
        match self.find(id) {
            Some(i) => {
                let d = &self.devices[i];
                assert(all[i as int] == d.deep_view());
                if d.online {
                    let name = d.info.name.clone();
                    let off = Device {
                        info: d.info.clone(),
                        addr: d.addr.clone(),
                        online: false,
                        last_seen_ms: d.last_seen_ms,
                    };
                    proof {
                        lemma_update_keeps_unique(all, i as int, off.deep_view());
                    }
                    self.devices[i] = off;
                    assert(self@ =~= after_bye(all, id@));
                    Some((id.to_owned(), name))
                } else {
                    assert(after_bye(all, id@) =~= all);
                    None
                }
            },
            None => None,
        }
    }

    /// Sets silent devices offline and forgets old entries. Id and name of
    /// those that went offline come back.
    pub fn prune(&mut self, now_ms: i64) -> (r: Vec<(String, String)>)
        requires
            old(self).wf(),
        ensures
            final(self).wf(),
            final(self)@ == after_prune(old(self)@, now_ms),
            r.deep_view() == gone_silent(old(self)@, now_ms),
            forall|i: int|
                0 <= i < old(self)@.len() && (#[trigger] old(self)@[i]).online && now_ms - old(
                    self,
                )@[i].last_seen_ms > 15_000 ==> r.deep_view().contains(
                    (old(self)@[i].info.id, old(self)@[i].info.name),
                ),
    {
        let ghost all = self@;
        let mut kept: Vec<Device> = Vec::new();
        let mut downs: Vec<(String, String)> = Vec::new();
        let mut i: usize = 0;
        assert(kept.deep_view() =~= Seq::<DeviceView>::empty());
        assert(downs.deep_view() =~= Seq::<(Seq<char>, Seq<char>)>::empty());
        while i < self.devices.len()
            invariant
                all == self@,
                i <= self.devices@.len(),
                kept.deep_view() == after_prune(all.take(i as int), now_ms),
                downs.deep_view() == gone_silent(all.take(i as int), now_ms),
            decreases self.devices@.len() - i,
        {
            let d = &self.devices[i];
            let ghost kept_before = kept.deep_view();
            let ghost downs_before = downs.deep_view();
            proof {
                assert(all.take(i + 1).drop_last() =~= all.take(i as int));
                assert(all[i as int] == d.deep_view());
            }
            let age: i128 = now_ms as i128 - d.last_seen_ms as i128;
            let silent = age > (DEVICE_TIMEOUT_SECS * 1000) as i128;
            if d.online && silent {
                downs.push((d.info.id.clone(), d.info.name.clone()));
                assert(downs.deep_view() =~= downs_before.push((d.info.id@, d.info.name@)));
            }
            let online = d.online && !silent;
            if online || age <= FORGET_AFTER_MS as i128 {
                let next = Device {
                    info: d.info.clone(),
                    addr: d.addr.clone(),
                    online,
                    last_seen_ms: d.last_seen_ms,
                };
                kept.push(next);
                assert(kept.deep_view() =~= kept_before.push(checked(all[i as int], now_ms)));
            }
            i = i + 1;
        }
        assert(all.take(i as int) =~= all);
        proof {
            lemma_prune_unique(all, now_ms);
            assert forall|i: int|
                0 <= i < all.len() && (#[trigger] all[i]).online && now_ms - all[i].last_seen_ms
                    > 15_000 implies downs.deep_view().contains(
                (all[i].info.id, all[i].info.name),
            ) by {
                law_every_silent_device_is_reported(
                    all,
                    now_ms,
                    all[i].info.id,
                    all[i].info.name,
                );
            }
        }
        self.devices = kept;
        downs
    }

    pub fn get(&self, id: &str) -> (r: Option<&Device>)
        requires
            self.wf(),
        ensures
            match r {
                Some(d) => lookup(self@, id@) == Some(d.deep_view()),
                None => lookup(self@, id@) is None,
            },
    {
        match self.find(id) {
            Some(i) => Some(&self.devices[i]),
            None => None,
        }
    }

    pub fn touch_by_ip(&mut self, ip: &Addr, now_ms: i64)
        requires
            old(self).wf(),
        ensures
            final(self).wf(),
            final(self)@ == after_touch(old(self)@, ip.deep_view(), now_ms),
    {
        let ghost all = self@;
        let mut i: usize = 0;
        while i < self.devices.len()
            invariant
                i <= self.devices@.len(),
                self@.len() == all.len(),
                forall|k: int|
                    0 <= k < i ==> #[trigger] self@[k] == after_touch(
                        all,
                        ip.deep_view(),
                        now_ms,
                    )[k],
                forall|k: int| i <= k < all.len() ==> #[trigger] self@[k] == all[k],
            decreases self.devices@.len() - i,
        {
            let ghost before = self@;
            let d = &self.devices[i];
            assert(before[i as int] == d.deep_view());
            if d.addr.same(ip) && d.online {
                let next = Device {
                    info: d.info.clone(),
                    addr: d.addr.clone(),
                    online: true,
                    last_seen_ms: now_ms,
                };
                self.devices[i] = next;
                assert(self@ =~= before.update(i as int, next.deep_view()));
            }
            i = i + 1;
        }
        assert(self@ =~= after_touch(all, ip.deep_view(), now_ms));
        proof {
            assert forall|i: int, j: int| 0 <= i < j < self@.len() implies (
            #[trigger] self@[i]).info.id != (#[trigger] self@[j]).info.id by {
                assert(all[i].info.id != all[j].info.id);
            }
        }
    }

    /// All devices, the one heard of last first.
    pub fn list(&self) -> (r: Vec<Device>)
        ensures
            r.deep_view() == by_last_seen(self@),
    {
        sort_by_last_seen(&self.devices)
    }
}

/// How many devices, from the first on, were heard of no earlier than `d`.
pub open spec fn place_after(s: Seq<DeviceView>, d: DeviceView) -> int
    decreases s.len(),
{
    if s.len() == 0 || s[0].last_seen_ms < d.last_seen_ms {
        0
    } else {
        1 + place_after(s.skip(1), d)
    }
}

/// The devices, the one heard of last first; those heard of at the same time
/// in the order they had.
pub open spec fn by_last_seen(s: Seq<DeviceView>) -> Seq<DeviceView>
    decreases s.len(),
{
    if s.len() == 0 {
        Seq::empty()
    } else {
        let t = by_last_seen(s.drop_last());
        t.insert(place_after(t, s.last()), s.last())
    }
}

proof fn lemma_place_after(s: Seq<DeviceView>, d: DeviceView, k: int)
    requires
        0 <= k <= s.len(),
        forall|i: int| 0 <= i < k ==> (#[trigger] s[i]).last_seen_ms >= d.last_seen_ms,
        k < s.len() ==> s[k].last_seen_ms < d.last_seen_ms,
    ensures
        place_after(s, d) == k,
    decreases k,
{
    if k > 0 {
        let t = s.skip(1);
        assert(s[0].last_seen_ms >= d.last_seen_ms);
        assert forall|i: int| 0 <= i < k - 1 implies (#[trigger] t[i]).last_seen_ms
            >= d.last_seen_ms by {
            assert(t[i] == s[i + 1]);
        }
        lemma_place_after(t, d, k - 1);
    }
}

proof fn lemma_place_range(s: Seq<DeviceView>, d: DeviceView)
    ensures
        0 <= place_after(s, d) <= s.len(),
        forall|i: int|
            0 <= i < place_after(s, d) ==> (#[trigger] s[i]).last_seen_ms >= d.last_seen_ms,
        place_after(s, d) < s.len() ==> s[place_after(s, d)].last_seen_ms < d.last_seen_ms,
    decreases s.len(),
{
    if s.len() > 0 && s[0].last_seen_ms >= d.last_seen_ms {
        let t = s.skip(1);
        lemma_place_range(t, d);
        let k = place_after(s, d);
        assert forall|i: int| 0 <= i < k implies (#[trigger] s[i]).last_seen_ms
            >= d.last_seen_ms by {
            if i > 0 {
                assert(t[i - 1].last_seen_ms >= d.last_seen_ms);
            }
        }
    }
}

/// The list is in order, and holds every device as often as it was given.
pub proof fn law_list_is_sorted(s: Seq<DeviceView>)
    ensures
        is_by_last_seen(by_last_seen(s)),
        by_last_seen(s).to_multiset() == s.to_multiset(),
        by_last_seen(s).len() == s.len(),
    decreases s.len(),
{
    if s.len() == 0 {
        assert(by_last_seen(s) =~= s);
    } else {
        let h = s.drop_last();
        let d = s.last();
        law_list_is_sorted(h);
        let t = by_last_seen(h);
        let k = place_after(t, d);
        let v = by_last_seen(s);
        lemma_place_range(t, d);
        seqs::lemma_insert_multiset(t, k, d);
        h.to_multiset_ensures();
        assert(s =~= h.push(d));
        assert forall|a: int, b: int| 0 <= a <= b < v.len() implies (
        #[trigger] v[a]).last_seen_ms >= (#[trigger] v[b]).last_seen_ms by {
            let x = if a < k {
                a
            } else {
                a - 1
            };
            let y = if b < k {
                b
            } else {
                b - 1
            };
            if a != k && b != k {
                assert(t[x].last_seen_ms >= t[y].last_seen_ms);
            } else if a == k && b > k {
                assert(t[k].last_seen_ms >= t[y].last_seen_ms);
            } else if b == k && a < k {
                assert(t[x].last_seen_ms >= d.last_seen_ms);
            }
        }
    }
}

pub fn sort_by_last_seen(devices: &Vec<Device>) -> (r: Vec<Device>)
    ensures
        r.deep_view() == by_last_seen(devices.deep_view()),
{
    let ghost all = devices.deep_view();
    let mut out: Vec<Device> = Vec::new();
    let mut i: usize = 0;
    assert(out.deep_view() =~= Seq::<DeviceView>::empty());
    assert(all.take(0) =~= Seq::<DeviceView>::empty());
    while i < devices.len()
        invariant
            all == devices.deep_view(),
            i <= devices@.len(),
            out.deep_view() == by_last_seen(all.take(i as int)),
        decreases devices@.len() - i,
    {
        let d = devices[i].clone();
        let ghost sorted = out.deep_view();
        let mut k: usize = 0;
        while k < out.len() && out[k].last_seen_ms >= d.last_seen_ms
            invariant
                k <= out@.len(),
                sorted == out.deep_view(),
                forall|m: int| 0 <= m < k ==> (#[trigger] sorted[m]).last_seen_ms >= d.last_seen_ms,
            decreases out@.len() - k,
        {
            assert(sorted[k as int] == out@[k as int].deep_view());
            k = k + 1;
        }
        proof {
            if k < out@.len() {
                assert(sorted[k as int] == out@[k as int].deep_view());
            }
            lemma_place_after(sorted, d.deep_view(), k as int);
            assert(all.take(i + 1).drop_last() =~= all.take(i as int));
            assert(all[i as int] == d.deep_view());
        }
        out.insert(k, d);
        assert(out.deep_view() =~= sorted.insert(k as int, d.deep_view()));
        i = i + 1;
    }
    assert(all.take(i as int) =~= all);
    out
}

proof fn lemma_prune_unique(s: Seq<DeviceView>, now: i64)
    requires
        ids_unique(s),
    ensures
        ids_unique(after_prune(s, now)),
        forall|i: int|
            0 <= i < after_prune(s, now).len() ==> exists|j: int|
                0 <= j < s.len() && #[trigger] after_prune(s, now)[i] == checked(
                    #[trigger] s[j],
                    now,
                ),
    decreases s.len(),
{
    if s.len() > 0 {
        let t = s.drop_last();
        assert(ids_unique(t)) by {
            assert forall|i: int, j: int| 0 <= i < j < t.len() implies (#[trigger] t[i]).info.id
                != (#[trigger] t[j]).info.id by {
                assert(s[i].info.id != s[j].info.id);
            }
        }
        lemma_prune_unique(t, now);
        let h = after_prune(t, now);
        let k = after_prune(s, now);
        assert forall|i: int| 0 <= i < k.len() implies exists|j: int|
            0 <= j < s.len() && #[trigger] k[i] == checked(#[trigger] s[j], now) by {
            if i < h.len() {
                assert(k[i] == h[i]);
                let m = choose|m: int| 0 <= m < t.len() && h[i] == checked(#[trigger] t[m], now);
                assert(k[i] == checked(s[m], now));
            } else {
                assert(k[i] == checked(s[s.len() - 1], now));
            }
        }
        assert forall|i: int, j: int| 0 <= i < j < k.len() implies (#[trigger] k[i]).info.id
            != (#[trigger] k[j]).info.id by {
            assert(k[i] == h[i]);
            if j < h.len() {
                assert(k[j] == h[j]);
            } else {
                let m = choose|m: int| 0 <= m < t.len() && h[i] == checked(#[trigger] t[m], now);
                assert(s[m].info.id != s[s.len() - 1].info.id);
            }
        }
    }
}

// ---------------------------------------------------------------------------
// Laws of the registry
// ---------------------------------------------------------------------------

/// After an announcement the device is known, online, at the address that it
/// came from.
pub proof fn law_announced_device_is_found(
    s: Seq<DeviceView>,
    info: DeviceInfoView,
    addr: AddrView,
    now: i64,
)
    requires
        ids_unique(s),
    ensures
        lookup(after_announce(s, info, addr, now), info.id) == Some(seen_device(info, addr, now)),
        ids_unique(after_announce(s, info, addr, now)),
{
    lemma_without_ghosts(s, info.id, addr);
    let k = without_ghosts(s, info.id, addr);
    let d = seen_device(info, addr, now);
    let r = after_announce(s, info, addr, now);
    if has_id(k, info.id) {
        let p = place_of(k, info.id);
        lemma_update_keeps_unique(k, p, d);
        assert(is_at(r, info.id, p));
        lemma_place(r, info.id, p);
    } else {
        assert forall|i: int, j: int| 0 <= i < j < r.len() implies (#[trigger] r[i]).info.id != (
        #[trigger] r[j]).info.id by {
            if j == k.len() && r[i].info.id == info.id {
                assert(is_at(k, info.id, i));
            }
        }
        assert(is_at(r, info.id, k.len() as int));
        lemma_place(r, info.id, k.len() as int);
    }
}

proof fn lemma_place(s: Seq<DeviceView>, id: Seq<char>, i: int)
    requires
        ids_unique(s),
        is_at(s, id, i),
    ensures
        has_id(s, id),
        place_of(s, id) == i,
{
    let p = place_of(s, id);
    assert(is_at(s, id, p));
    if p < i {
        assert(s[p].info.id != s[i].info.id);
    } else if i < p {
        assert(s[i].info.id != s[p].info.id);
    }
}

/// Hearing the same announcement again, from whatever address, is no news;
/// hearing another name is.
pub proof fn law_repeated_announcement_is_silent(
    s: Seq<DeviceView>,
    info: DeviceInfoView,
    addr: AddrView,
    now: i64,
    other: DeviceInfoView,
)
    requires
        ids_unique(s),
        other.id == info.id,
    ensures
        is_news(after_announce(s, info, addr, now), other) == (other != info),
{
    law_announced_device_is_found(s, info, addr, now);
}

/// A goodbye sets the device offline, touches nobody else, and is heard once:
/// a second goodbye finds the device offline.
pub proof fn law_bye_is_heard_once(s: Seq<DeviceView>, id: Seq<char>)
    requires
        ids_unique(s),
    ensures
        lookup(after_bye(s, id), id) == (match lookup(s, id) {
            Some(d) => Some(set_offline(d)),
            None => None,
        }),
        forall|other: Seq<char>|
            other != id ==> #[trigger] lookup(after_bye(s, id), other) == lookup(s, other),
        after_bye(after_bye(s, id), id) == after_bye(s, id),
{
    let r = after_bye(s, id);
    if has_id(s, id) {
        let p = place_of(s, id);
        lemma_update_keeps_unique(s, p, set_offline(s[p]));
        assert(is_at(r, id, p));
        lemma_place(r, id, p);
        assert forall|other: Seq<char>| other != id implies #[trigger] lookup(r, other) == lookup(
            s,
            other,
        ) by {
            if has_id(s, other) {
                let q = place_of(s, other);
                assert(is_at(r, other, q));
                lemma_place(r, other, q);
            } else if has_id(r, other) {
                let q = place_of(r, other);
                assert(is_at(s, other, q));
            }
        }
        assert(after_bye(r, id) =~= r);
    }
}

/// A device that said goodbye is news when it announces itself again.
pub proof fn law_return_is_news(s: Seq<DeviceView>, info: DeviceInfoView)
    requires
        ids_unique(s),
    ensures
        is_news(after_bye(s, info.id), info),
{
    law_bye_is_heard_once(s, info.id);
}

/// A sign of life changes neither who is known nor who is online.
pub proof fn law_touch_revives_nobody(s: Seq<DeviceView>, addr: AddrView, now: i64)
    ensures
        after_touch(s, addr, now).len() == s.len(),
        forall|i: int|
            0 <= i < s.len() ==> (#[trigger] after_touch(s, addr, now)[i]).online == s[i].online
                && after_touch(s, addr, now)[i].info == s[i].info && after_touch(
                s,
                addr,
                now,
            )[i].addr == s[i].addr,
{
}

/// After a check every online device was heard of within the timeout, nothing
/// old is left offline, and a second check at the same time does nothing.
pub proof fn law_prune_settles(s: Seq<DeviceView>, now: i64)
    ensures
        forall|i: int|
            0 <= i < after_prune(s, now).len() ==> {
                let d = #[trigger] after_prune(s, now)[i];
                &&& d.online ==> !is_silent(d, now)
                &&& !is_forgotten(d, now)
            },
        after_prune(after_prune(s, now), now) == after_prune(s, now),
        gone_silent(after_prune(s, now), now) == Seq::<(Seq<char>, Seq<char>)>::empty(),
    decreases s.len(),
{
    if s.len() > 0 {
        let t = s.drop_last();
        law_prune_settles(t, now);
        let h = after_prune(t, now);
        let k = after_prune(s, now);
        let d = checked(s.last(), now);
        if !is_forgotten(d, now) {
            assert(k.drop_last() =~= h);
            assert(k.last() == d);
            assert(checked(d, now) == d);
            assert(after_prune(k, now) =~= k);
            assert forall|i: int| 0 <= i < k.len() implies {
                let e = #[trigger] k[i];
                &&& e.online ==> !is_silent(e, now)
                &&& !is_forgotten(e, now)
            } by {
                if i < h.len() {
                    assert(k[i] == h[i]);
                }
            }
        }
    }
}

/// A check of two groups of devices is a check of each: it keeps and reports
/// the first group's and then the second group's.
pub proof fn law_prune_goes_device_by_device(a: Seq<DeviceView>, b: Seq<DeviceView>, now: i64)
    ensures
        after_prune(a + b, now) == after_prune(a, now) + after_prune(b, now),
        gone_silent(a + b, now) == gone_silent(a, now) + gone_silent(b, now),
    decreases b.len(),
{
    let all = a + b;
    if b.len() == 0 {
        assert(all =~= a);
        assert(after_prune(a, now) + after_prune(b, now) =~= after_prune(a, now));
        assert(gone_silent(a, now) + gone_silent(b, now) =~= gone_silent(a, now));
    } else {
        law_prune_goes_device_by_device(a, b.drop_last(), now);
        assert(all.drop_last() =~= a + b.drop_last());
        assert(all.last() == b.last());
        assert(after_prune(all, now) =~= after_prune(a, now) + after_prune(b, now));
        assert(gone_silent(all, now) =~= gone_silent(a, now) + gone_silent(b, now));
    }
}

/// What a check does to one device: after more than fifteen seconds of
/// silence it is offline, which is told where it was online before; after more
/// than two minutes an offline device is forgotten; nothing else changes.
pub proof fn law_prune_of_one_device(d: DeviceView, now: i64)
    ensures
        d.online && now - d.last_seen_ms > 15_000 ==> gone_silent(seq![d], now) == seq![
            (d.info.id, d.info.name),
        ],
        !(d.online && now - d.last_seen_ms > 15_000) ==> gone_silent(seq![d], now).len() == 0,
        now - d.last_seen_ms <= 15_000 ==> after_prune(seq![d], now) == seq![d],
        15_000 < now - d.last_seen_ms <= 120_000 ==> after_prune(seq![d], now) == seq![
            DeviceView { online: false, ..d },
        ],
        now - d.last_seen_ms > 120_000 ==> after_prune(seq![d], now).len() == 0,
{
    let s = seq![d];
    assert(s.drop_last() =~= Seq::<DeviceView>::empty());
    assert(s.last() == d);
    assert(after_prune(s.drop_last(), now) =~= Seq::<DeviceView>::empty());
    assert(gone_silent(s.drop_last(), now) =~= Seq::<(Seq<char>, Seq<char>)>::empty());
    assert(checked(d, now).info == d.info);
    if now - d.last_seen_ms <= 15_000 {
        assert(checked(d, now) == d);
        assert(after_prune(s, now) =~= s);
    } else if now - d.last_seen_ms <= 120_000 {
        assert(after_prune(s, now) =~= seq![DeviceView { online: false, ..d }]);
    } else {
        assert(after_prune(s, now) =~= Seq::<DeviceView>::empty());
    }
    if d.online && now - d.last_seen_ms > 15_000 {
        assert(gone_silent(s, now) =~= seq![(d.info.id, d.info.name)]);
    }
}

/// A device is reported exactly where it was online and had been silent for
/// longer than fifteen seconds.
pub proof fn law_every_silent_device_is_reported(
    s: Seq<DeviceView>,
    now: i64,
    id: Seq<char>,
    name: Seq<char>,
)
    ensures
        gone_silent(s, now).contains((id, name)) <==> exists|i: int|
            0 <= i < s.len() && (#[trigger] s[i]).online && now - s[i].last_seen_ms > 15_000
                && s[i].info.id == id && s[i].info.name == name,
    decreases s.len(),
{
    if s.len() > 0 {
        let t = s.drop_last();
        let d = s.last();
        law_every_silent_device_is_reported(t, now, id, name);
        let h = gone_silent(t, now);
        let g = gone_silent(s, now);
        assert(d == s[s.len() - 1]);
        if g.contains((id, name)) {
            let k = choose|k: int| 0 <= k < g.len() && g[k] == (id, name);
            if k < h.len() {
                assert(h[k] == (id, name));
                let i = choose|i: int|
                    0 <= i < t.len() && (#[trigger] t[i]).online && now - t[i].last_seen_ms > 15_000
                        && t[i].info.id == id && t[i].info.name == name;
                assert(s[i] == t[i]);
            }
        }
        if exists|i: int|
            0 <= i < s.len() && (#[trigger] s[i]).online && now - s[i].last_seen_ms > 15_000
                && s[i].info.id == id && s[i].info.name == name {
            let i = choose|i: int|
                0 <= i < s.len() && (#[trigger] s[i]).online && now - s[i].last_seen_ms > 15_000
                    && s[i].info.id == id && s[i].info.name == name;
            if i < t.len() {
                assert(t[i] == s[i]);
                let m = choose|m: int| 0 <= m < h.len() && h[m] == (id, name);
                assert(g[m] == h[m]);
            } else {
                assert(g[g.len() - 1] == (id, name));
            }
        }
    }
}

/// No device is reported twice.
pub proof fn law_silent_devices_are_reported_once(s: Seq<DeviceView>, now: i64, j: int, k: int)
    requires
        ids_unique(s),
        0 <= j < k < gone_silent(s, now).len(),
    ensures
        gone_silent(s, now)[j].0 != gone_silent(s, now)[k].0,
    decreases s.len(),
{
    let t = s.drop_last();
    let h = gone_silent(t, now);
    let g = gone_silent(s, now);
    assert(ids_unique(t)) by {
        assert forall|a: int, b: int| 0 <= a < b < t.len() implies (#[trigger] t[a]).info.id != (
        #[trigger] t[b]).info.id by {
            assert(s[a].info.id != s[b].info.id);
        }
    }
    assert(g[j] == h[j]);
    if k < h.len() {
        law_silent_devices_are_reported_once(t, now, j, k);
        assert(g[k] == h[k]);
    } else {
        law_every_silent_device_is_reported(t, now, h[j].0, h[j].1);
        assert(h[j] == (h[j].0, h[j].1));
        assert(h.contains((h[j].0, h[j].1)));
        let i = choose|i: int|
            0 <= i < t.len() && (#[trigger] t[i]).online && now - t[i].last_seen_ms > 15_000
                && t[i].info.id == h[j].0 && t[i].info.name == h[j].1;
        assert(s[i].info.id != s[s.len() - 1].info.id);
    }
}

/// Every device that a check turns from online to offline, or drops, was
/// reported by it.
pub proof fn law_nobody_goes_offline_in_silence(s: Seq<DeviceView>, now: i64, i: int)
    requires
        ids_unique(s),
        0 <= i < s.len(),
        s[i].online,
    ensures
        lookup(after_prune(s, now), s[i].info.id) == Some(s[i]) || gone_silent(s, now).contains(
            (s[i].info.id, s[i].info.name),
        ),
{
    let d = s[i];
    let r = after_prune(s, now);
    lemma_prune_unique(s, now);
    law_every_silent_device_is_reported(s, now, d.info.id, d.info.name);
    if now - d.last_seen_ms <= 15_000 {
        let a = s.take(i);
        let c = s.skip(i + 1);
        assert((a + seq![d]) + c =~= s);
        law_prune_goes_device_by_device(a, seq![d], now);
        law_prune_goes_device_by_device(a + seq![d], c, now);
        law_prune_of_one_device(d, now);
        let p = after_prune(a, now).len() as int;
        assert(r[p] == d);
        assert(is_at(r, d.info.id, p));
        lemma_place(r, d.info.id, p);
    }
}

/// The event of each device that went offline names it.
pub proof fn law_each_report_is_told(downs: Seq<(Seq<char>, Seq<char>)>, i: int)
    requires
        0 <= i < downs.len(),
    ensures
        down_events(downs).len() == downs.len(),
        down_events(downs)[i] is DeviceDown,
        down_events(downs)[i]->DeviceDown_id == downs[i].0,
        down_events(downs)[i]->DeviceDown_name == downs[i].1,
{
}

/// An announcement is news exactly where the device was not known to be
/// online under what it says of itself.
pub proof fn law_news_is_what_was_not_known(s: Seq<DeviceView>, info: DeviceInfoView)
    requires
        ids_unique(s),
    ensures
        is_news(s, info) <==> !exists|i: int|
            0 <= i < s.len() && (#[trigger] s[i]).online && s[i].info == info,
{
    if exists|i: int| 0 <= i < s.len() && (#[trigger] s[i]).online && s[i].info == info {
        let i = choose|i: int| 0 <= i < s.len() && (#[trigger] s[i]).online && s[i].info == info;
        assert(is_at(s, info.id, i));
        lemma_place(s, info.id, i);
    } else if has_id(s, info.id) {
        let p = place_of(s, info.id);
        assert(is_at(s, info.id, p));
        assert(!(s[p].online && s[p].info == info));
    }
}

/// What the user is told of a device that is news is what the registry holds
/// of it from then on: it is online, at the address that it was heard from,
/// heard of just now.
pub proof fn law_told_is_what_is_known(
    s: Seq<DeviceView>,
    info: DeviceInfoView,
    addr: AddrView,
    now: i64,
)
    requires
        ids_unique(s),
    ensures
        up_event(s, info, addr, now) is Some <==> is_news(s, info),
        up_event(s, info, addr, now) is Some ==> up_event(s, info, addr, now)->Some_0 is DeviceUp
            && Some(up_event(s, info, addr, now)->Some_0->DeviceUp_0) == lookup(
            after_announce(s, info, addr, now),
            info.id,
        ),
        lookup(after_announce(s, info, addr, now), info.id) is Some,
        ({
            let d = lookup(after_announce(s, info, addr, now), info.id)->Some_0;
            d.info == info && d.addr == addr && d.online && d.last_seen_ms == now
        }),
{
    law_announced_device_is_found(s, info, addr, now);
}

/// An announcement leaves every other device as it was, but for offline ones
/// at the same address: those are what an earlier installation left behind
/// and go.
pub proof fn law_announcement_leaves_others(
    s: Seq<DeviceView>,
    info: DeviceInfoView,
    addr: AddrView,
    now: i64,
    other: Seq<char>,
)
    requires
        ids_unique(s),
        other != info.id,
    ensures
        lookup(after_announce(s, info, addr, now), other) == (match lookup(s, other) {
            Some(d) => if d.addr == addr && !d.online {
                None
            } else {
                Some(d)
            },
            None => None,
        }),
{
    lemma_without_ghosts(s, info.id, addr);
    law_announced_device_is_found(s, info, addr, now);
    let k = without_ghosts(s, info.id, addr);
    let r = after_announce(s, info, addr, now);
    if has_id(s, other) {
        let p = place_of(s, other);
        assert(is_at(s, other, p));
        if is_ghost(s[p], info.id, addr) {
            if has_id(r, other) {
                let q = place_of(r, other);
                assert(is_at(r, other, q));
                assert(q < k.len() && k[q] == r[q]);
                lemma_no_ghost_stays(s, info.id, addr);
                let m = choose|m: int| 0 <= m < s.len() && s[m] == k[q];
                assert(is_at(s, other, m));
                lemma_place(s, other, m);
            }
        } else {
            lemma_kept_entry(s, info.id, addr, p);
            let q = choose|q: int| 0 <= q < k.len() && k[q] == s[p];
            assert(r[q] == k[q]);
            assert(is_at(r, other, q));
            lemma_place(r, other, q);
        }
    } else if has_id(r, other) {
        let q = place_of(r, other);
        assert(is_at(r, other, q));
        assert(q < k.len() && k[q] == r[q]);
        assert(s.contains(k[q]));
        let m = choose|m: int| 0 <= m < s.len() && s[m] == k[q];
        assert(is_at(s, other, m));
    }
}

proof fn lemma_no_ghost_stays(s: Seq<DeviceView>, id: Seq<char>, addr: AddrView)
    requires
        ids_unique(s),
    ensures
        forall|i: int|
            0 <= i < without_ghosts(s, id, addr).len() ==> s.contains(
                #[trigger] without_ghosts(s, id, addr)[i],
            ) && !is_ghost(without_ghosts(s, id, addr)[i], id, addr),
    decreases s.len(),
{
    lemma_without_ghosts(s, id, addr);
    if s.len() > 0 {
        let t = s.drop_last();
        assert(ids_unique(t)) by {
            assert forall|i: int, j: int| 0 <= i < j < t.len() implies (#[trigger] t[i]).info.id
                != (#[trigger] t[j]).info.id by {
                assert(s[i].info.id != s[j].info.id);
            }
        }
        lemma_no_ghost_stays(t, id, addr);
        let h = without_ghosts(t, id, addr);
        let k = without_ghosts(s, id, addr);
        assert forall|i: int| 0 <= i < k.len() implies !is_ghost(#[trigger] k[i], id, addr) by {
            if i < h.len() {
                assert(k[i] == h[i]);
            }
        }
    }
}

/// A goodbye changes of the device only that it is online.
pub proof fn law_bye_changes_only_online(s: Seq<DeviceView>, id: Seq<char>)
    requires
        ids_unique(s),
        lookup(s, id) is Some,
    ensures
        lookup(after_bye(s, id), id) is Some,
        ({
            let before = lookup(s, id)->Some_0;
            let after = lookup(after_bye(s, id), id)->Some_0;
            !after.online && after.info == before.info && after.addr == before.addr
                && after.last_seen_ms == before.last_seen_ms
        }),
{
    law_bye_is_heard_once(s, id);
}

/// A sign of life from an address counts for the online devices there, and
/// for no other.
pub proof fn law_touch_counts_for_its_address(
    s: Seq<DeviceView>,
    addr: AddrView,
    now: i64,
    i: int,
)
    requires
        0 <= i < s.len(),
    ensures
        s[i].addr == addr && s[i].online ==> after_touch(s, addr, now)[i].last_seen_ms == now,
        !(s[i].addr == addr && s[i].online) ==> after_touch(s, addr, now)[i] == s[i],
{
}

/// Who announces itself on time is never taken for gone.
pub proof fn law_announcements_come_in_time(tick: u64, d: DeviceView)
    requires
        d.last_seen_ms + announce_wait(tick) * 1000 <= i64::MAX,
    ensures
        0 < announce_wait(tick) <= 10,
        tick < 3 ==> announce_wait(tick) == 2,
        gone_silent(seq![d], (d.last_seen_ms + announce_wait(tick) * 1000) as i64).len() == 0,
{
    law_prune_of_one_device(d, (d.last_seen_ms + announce_wait(tick) * 1000) as i64);
}

// ---------------------------------------------------------------------------
// Packets
// ---------------------------------------------------------------------------

/// When a device was last answered, one entry per id.
#[derive(Debug)]
pub struct ReplyLog {
    pub entries: Vec<(String, i64)>,
}

impl View for ReplyLog {
    type V = Seq<(Seq<char>, i64)>;

    open spec fn view(&self) -> Seq<(Seq<char>, i64)> {
        self.entries.deep_view()
    }
}

pub open spec fn log_unique(s: Seq<(Seq<char>, i64)>) -> bool {
    forall|i: int, j: int| 0 <= i < j < s.len() ==> (#[trigger] s[i]).0 != (#[trigger] s[j]).0
}

pub open spec fn log_at(s: Seq<(Seq<char>, i64)>, id: Seq<char>, i: int) -> bool {
    0 <= i < s.len() && s[i].0 == id
}

/// The time of the last answer to a device.
pub open spec fn last_reply(s: Seq<(Seq<char>, i64)>, id: Seq<char>) -> Option<i64> {
    if exists|i: int| log_at(s, id, i) {
        Some(s[choose|i: int| log_at(s, id, i)].1)
    } else {
        None
    }
}

/// Whether a device is answered now.
pub open spec fn reply_due(s: Seq<(Seq<char>, i64)>, id: Seq<char>, now: i64) -> bool {
    match last_reply(s, id) {
        Some(t) => now - t >= REPLY_INTERVAL_MS,
        None => true,
    }
}

proof fn lemma_log_at(s: Seq<(Seq<char>, i64)>, id: Seq<char>, i: int)
    requires
        log_unique(s),
        log_at(s, id, i),
    ensures
        last_reply(s, id) == Some(s[i].1),
{
    let p = choose|p: int| log_at(s, id, p);
    assert(log_at(s, id, p));
    if p < i {
        assert(s[p].0 != s[i].0);
    } else if i < p {
        assert(s[i].0 != s[p].0);
    }
}

impl ReplyLog {
    pub open spec fn wf(&self) -> bool {
        log_unique(self@)
    }

    pub fn new() -> (r: Self)
        ensures
            r@ == Seq::<(Seq<char>, i64)>::empty(),
            r.wf(),
    {
        let r = ReplyLog { entries: Vec::new() };
        assert(r@ =~= Seq::<(Seq<char>, i64)>::empty());
        r
    }

    /// Whether the device is answered now; the answer is then noted.
    pub fn take_turn(&mut self, id: &str, now: i64) -> (r: bool)
        requires
            old(self).wf(),
        ensures
            final(self).wf(),
            r == reply_due(old(self)@, id@, now),
            r ==> last_reply(final(self)@, id@) == Some(now),
            !r ==> final(self)@ == old(self)@,
            forall|other: Seq<char>|
                other != id@ ==> #[trigger] last_reply(final(self)@, other) == last_reply(
                    old(self)@,
                    other,
                ),
    {
        let ghost all = self@;
        let mut i: usize = 0;
        while i < self.entries.len()
            invariant
                all == self@,
                all == old(self)@,
                self.wf(),
                i <= self.entries@.len(),
                forall|k: int| 0 <= k < i ==> (#[trigger] all[k]).0 != id@,
            decreases self.entries@.len() - i,
        {
            let e = &self.entries[i];
            assert(all[i as int] == e.deep_view());
            if same_text(e.0.as_str(), id) {
                proof {
                    assert(log_at(all, id@, i as int));
                    lemma_log_at(all, id@, i as int);
                }
                if now as i128 - e.1 as i128 >= REPLY_INTERVAL_MS as i128 {
                    let name = e.0.clone();
                    self.entries[i] = (name, now);
                    proof {
                        let v = self@;
                        assert(v =~= all.update(i as int, (id@, now)));
                        assert(log_unique(v)) by {
                            assert forall|a: int, b: int| 0 <= a < b < v.len() implies (
                            #[trigger] v[a]).0 != (#[trigger] v[b]).0 by {
                                assert(all[a].0 != all[b].0);
                            }
                        }
                        assert(log_at(v, id@, i as int));
                        lemma_log_at(v, id@, i as int);
                        lemma_others_untouched(all, v, id@);
                    }
                    return true;
                }
                return false;
            }
            i = i + 1;
        }
        self.entries.push((id.to_owned(), now));
        proof {
            let v = self@;
            assert(v =~= all.push((id@, now)));
            assert(log_unique(v));
            assert(!(exists|k: int| log_at(all, id@, k))) by {
                if exists|k: int| log_at(all, id@, k) {
                    let k = choose|k: int| log_at(all, id@, k);
                    assert(all[k].0 == id@);
                }
            }
            assert(log_at(v, id@, all.len() as int));
            lemma_log_at(v, id@, all.len() as int);
            lemma_others_untouched(all, v, id@);
        }
        true
    }
}

proof fn lemma_others_untouched(
    before: Seq<(Seq<char>, i64)>,
    after: Seq<(Seq<char>, i64)>,
    id: Seq<char>,
)
    requires
        log_unique(before),
        log_unique(after),
        before.len() <= after.len() <= before.len() + 1,
        forall|i: int|
            0 <= i < before.len() ==> #[trigger] after[i] == before[i] || (after[i].0 == id
                && before[i].0 == id),
        after.len() > before.len() ==> after[before.len() as int].0 == id,
    ensures
        forall|other: Seq<char>|
            other != id ==> #[trigger] last_reply(after, other) == last_reply(before, other),
{
    assert forall|other: Seq<char>| other != id implies #[trigger] last_reply(after, other)
        == last_reply(before, other) by {
        if exists|k: int| log_at(before, other, k) {
            let k = choose|k: int| log_at(before, other, k);
            assert(after[k] == before[k]);
            assert(log_at(after, other, k));
            lemma_log_at(after, other, k);
            lemma_log_at(before, other, k);
        } else if exists|k: int| log_at(after, other, k) {
            let k = choose|k: int| log_at(after, other, k);
            assert(log_at(before, other, k));
        }
    }
}

/// Whether an announcement concerns this device: it comes from another one
/// that speaks the same version.
pub open spec fn is_relevant(info: DeviceInfoView, me: DeviceInfoView) -> bool {
    info.id != me.id && info.v == PROTOCOL_VERSION
}

/// What a packet leads to: what the user is told, and whether the sender is
/// answered with an announcement.
#[derive(Debug)]
pub struct PacketOutcome {
    pub event: Option<CoreEvent>,
    pub reply: bool,
}

/// Takes a packet in that came from `src` at `now`.
pub fn on_packet(
    registry: &mut Registry,
    replies: &mut ReplyLog,
    me: &DeviceInfo,
    packet: DiscoveryPacket,
    src: Addr,
    now: i64,
) -> (r: PacketOutcome)
    requires
        old(registry).wf(),
        old(replies).wf(),
    ensures
        final(registry).wf(),
        final(replies).wf(),
        match packet {
            DiscoveryPacket::Announce { info } => if is_relevant(info.deep_view(), me.deep_view()) {
                &&& final(registry)@ == after_announce(
                    old(registry)@,
                    info.deep_view(),
                    src.deep_view(),
                    now,
                )
                &&& r.event.deep_view() == (if is_news(old(registry)@, info.deep_view()) {
                    Some(
                        CoreEventView::DeviceUp(
                            seen_device(info.deep_view(), src.deep_view(), now),
                        ),
                    )
                } else {
                    None
                })
                &&& r.reply == reply_due(old(replies)@, info.id@, now)
                &&& r.reply ==> last_reply(final(replies)@, info.id@) == Some(now)
                &&& !r.reply ==> final(replies)@ == old(replies)@
                &&& forall|other: Seq<char>|
                    other != info.id@ ==> #[trigger] last_reply(final(replies)@, other)
                        == last_reply(old(replies)@, other)
            } else {
                &&& final(registry)@ == old(registry)@
                &&& final(replies)@ == old(replies)@
                &&& r.event is None
                &&& !r.reply
            },
            DiscoveryPacket::Bye { id } => {
                &&& final(replies)@ == old(replies)@
                &&& !r.reply
                &&& final(registry)@ == (if id@ == me.id@ {
                    old(registry)@
                } else {
                    after_bye(old(registry)@, id@)
                })
                &&& r.event.deep_view() == (match lookup(old(registry)@, id@) {
                    Some(d) => if d.online && id@ != me.id@ {
                        Some(CoreEventView::DeviceDown { id: id@, name: d.info.name })
                    } else {
                        None
                    },
                    None => None,
                })
            },
        },
{
    match packet {
        DiscoveryPacket::Announce { info } => {
            if same_text(info.id.as_str(), me.id.as_str()) || info.v != PROTOCOL_VERSION {
                return PacketOutcome { event: None, reply: false };
            }
            let id = info.id.clone();
            let event = match registry.on_announce(info, src, now) {
                Some(dev) => Some(CoreEvent::DeviceUp(dev)),
                None => None,
            };
            let reply = replies.take_turn(id.as_str(), now);
            PacketOutcome { event, reply }
        },
        DiscoveryPacket::Bye { id } => {
            if same_text(id.as_str(), me.id.as_str()) {
                return PacketOutcome { event: None, reply: false };
            }
            let event = match registry.on_bye(id.as_str()) {
                Some((id, name)) => Some(CoreEvent::DeviceDown { id, name }),
                None => None,
            };
            PacketOutcome { event, reply: false }
        },
    }
}

/// The device that the peer of a request is: it counts as announced.
pub fn note_peer(
    registry: &mut Registry,
    info: DeviceInfo,
    addr: Addr,
    now: i64,
) -> (r: Option<CoreEvent>)
    requires
        old(registry).wf(),
    ensures
        final(registry).wf(),
        final(registry)@ == after_announce(
            old(registry)@,
            info.deep_view(),
            addr.deep_view(),
            now,
        ),
        r.deep_view() == up_event(old(registry)@, info.deep_view(), addr.deep_view(), now),
{
    match registry.on_announce(info, addr, now) {
        Some(dev) => Some(CoreEvent::DeviceUp(dev)),
        None => None,
    }
}

/// What the user is told of a device that was heard of.
pub open spec fn up_event(
    s: Seq<DeviceView>,
    info: DeviceInfoView,
    addr: AddrView,
    now: i64,
) -> Option<CoreEventView> {
    if is_news(s, info) {
        Some(CoreEventView::DeviceUp(seen_device(info, addr, now)))
    } else {
        None
    }
}

/// The events of devices that went offline.
pub open spec fn down_events(downs: Seq<(Seq<char>, Seq<char>)>) -> Seq<CoreEventView> {
    Seq::new(
        downs.len(),
        |i: int| CoreEventView::DeviceDown { id: downs[i].0, name: downs[i].1 },
    )
}

/// One round of the check for silent devices.
pub fn prune_round(registry: &mut Registry, now: i64) -> (r: Vec<CoreEvent>)
    requires
        old(registry).wf(),
    ensures
        final(registry).wf(),
        final(registry)@ == after_prune(old(registry)@, now),
        r.deep_view() == down_events(gone_silent(old(registry)@, now)),
{
    let downs = registry.prune(now);
    let ghost all = downs.deep_view();
    let mut out: Vec<CoreEvent> = Vec::new();
    let mut i: usize = 0;
    assert(out.deep_view() =~= Seq::<CoreEventView>::empty());
    while i < downs.len()
        invariant
            all == downs.deep_view(),
            i <= downs@.len(),
            out.deep_view() == down_events(all).take(i as int),
        decreases downs@.len() - i,
    {
        let d = &downs[i];
        assert(all[i as int] == d.deep_view());
        let ghost before = out.deep_view();
        out.push(CoreEvent::DeviceDown { id: d.0.clone(), name: d.1.clone() });
        assert(out.deep_view() =~= before.push(down_events(all)[i as int]));
        assert(down_events(all).take(i + 1) =~= down_events(all).take(i as int).push(
            down_events(all)[i as int],
        ));
        i = i + 1;
    }
    assert(down_events(all).take(i as int) =~= down_events(all));
    out
}

// ---------------------------------------------------------------------------
// Announcing
// ---------------------------------------------------------------------------

/// Seconds until the next announcement: quick at first, then slow.
pub open spec fn announce_wait(tick: u64) -> u64 {
    if tick < 3 {
        2
    } else {
        10
    }
}

/// The wait after this announcement, and the number of the next one.
pub fn announce_step(tick: u64) -> (r: (u64, u64))
    ensures
        r.0 == announce_wait(tick),
        r.1 == (if tick < u64::MAX {
            (tick + 1) as u64
        } else {
            tick
        }),
{
    let wait: u64 = if tick < 3 {
        2
    } else {
        10
    };
    let next: u64 = if tick < u64::MAX {
        tick + 1
    } else {
        tick
    };
    (wait, next)
}

/// The interfaces that announcements go out by: all of them, or whatever the
/// system chooses, which is written as four zeros.
pub open spec fn outgoing(ifaces: Seq<(u8, u8, u8, u8)>) -> Seq<(u8, u8, u8, u8)> {
    if ifaces.len() == 0 {
        seq![(0, 0, 0, 0)]
    } else {
        ifaces
    }
}

pub fn outgoing_interfaces(ifaces: Vec<(u8, u8, u8, u8)>) -> (r: Vec<(u8, u8, u8, u8)>)
    ensures
        r@ == outgoing(ifaces@),
{
    if ifaces.len() == 0 {
        let mut out: Vec<(u8, u8, u8, u8)> = Vec::new();
        out.push((0, 0, 0, 0));
        out
    } else {
        ifaces
    }
}

/// Announcements of other devices that speak the same version count; one's
/// own, and those of other versions, do not.
pub proof fn law_whose_announcements_count(info: DeviceInfoView, me: DeviceInfoView)
    ensures
        is_relevant(me, me) == false,
        info.v != 1 ==> !is_relevant(info, me),
        info.id != me.id && info.v == 1 ==> is_relevant(info, me),
{
}

/// A device is answered the first time that it is heard, and then not again
/// within two seconds.
pub proof fn law_answers_are_spaced(s: Seq<(Seq<char>, i64)>, id: Seq<char>, now: i64)
    requires
        log_unique(s),
    ensures
        (forall|i: int| 0 <= i < s.len() ==> (#[trigger] s[i]).0 != id) ==> reply_due(s, id, now),
        forall|i: int|
            0 <= i < s.len() && (#[trigger] s[i]).0 == id ==> (reply_due(s, id, now) <==> now
                - s[i].1 >= 2000),
{
    if forall|i: int| 0 <= i < s.len() ==> (#[trigger] s[i]).0 != id {
        assert forall|i: int| !log_at(s, id, i) by {
            if log_at(s, id, i) {
                assert(s[i].0 == id);
            }
        }
    }
    assert forall|i: int| 0 <= i < s.len() && (#[trigger] s[i]).0 == id implies (reply_due(
        s,
        id,
        now,
    ) <==> now - s[i].1 >= 2000) by {
        assert(log_at(s, id, i));
        lemma_log_at(s, id, i);
    }
}

/// Announcements go out by every interface there is, and by whatever the
/// system chooses where there is none.
pub proof fn law_announcements_always_go_out(ifaces: Seq<(u8, u8, u8, u8)>)
    ensures
        outgoing(ifaces).len() > 0,
        ifaces.len() > 0 ==> outgoing(ifaces) == ifaces,
        ifaces.len() == 0 ==> outgoing(ifaces) == seq![(0u8, 0u8, 0u8, 0u8)],
{
}

} // verus!

//! Event gates and the broadcaster that pushes events to observers.
use crate::codec::copy_range;
use crate::ids::IdFactory;
use crate::message::{BaseMessage, MessageType, MessageView};
use std::collections::HashMap;
use vstd::arithmetic::div_mod::lemma_fundamental_div_mod_converse;
use vstd::prelude::*;

verus! {

broadcast use vstd::std_specs::hash::group_hash_axioms;

/// One event of one object of one service.
#[derive(Debug, Clone, Copy, PartialEq, Eq, Structural)]
pub struct EventMapKey {
    pub service: u32,
    pub object: u32,
    pub event: u32,
}

/// The number that stands for `k` in a gate map.
pub open spec fn key_code(k: EventMapKey) -> u128 {
    ((k.service as int * 0x1_0000_0000 + k.object as int) * 0x1_0000_0000 + k.event as int) as u128
}

proof fn lemma_key_code_injective(a: EventMapKey, b: EventMapKey)
    requires
        key_code(a) == key_code(b),
    ensures
        a == b,
{
    let d: int = 0x1_0000_0000;
    lemma_key_code_bound(a);
    lemma_key_code_bound(b);
    let qa = a.service as int * d + a.object as int;
    let qb = b.service as int * d + b.object as int;
    let x = qa * d + a.event as int;
    assert(x == qb * d + b.event as int);
    lemma_fundamental_div_mod_converse(x, d, qa, a.event as int);
    lemma_fundamental_div_mod_converse(x, d, qb, b.event as int);
    lemma_fundamental_div_mod_converse(qa, d, a.service as int, a.object as int);
    lemma_fundamental_div_mod_converse(qa, d, b.service as int, b.object as int);
}

proof fn lemma_key_code_bound(k: EventMapKey)
    ensures
        0 <= (k.service as int * 0x1_0000_0000 + k.object as int) * 0x1_0000_0000 + k.event as int
            <= u128::MAX,
{
    let s = k.service as int;
    let o = k.object as int;
    let e = k.event as int;
    assert(0 <= (s * 0x1_0000_0000 + o) * 0x1_0000_0000 + e <= u128::MAX) by (nonlinear_arith)
        requires
            0 <= s < 0x1_0000_0000,
            0 <= o < 0x1_0000_0000,
            0 <= e < 0x1_0000_0000,
    ;
}

impl EventMapKey {
    pub fn new(service: u32, object: u32, event: u32) -> (r: Self)
        ensures
            r == (EventMapKey { service, object, event }),
    {
        EventMapKey { service, object, event }
    }

    fn code(&self) -> (r: u128)
        ensures
            r == key_code(*self),
    {
        proof {
            lemma_key_code_bound(*self);
        }
        (self.service as u128 * 0x1_0000_0000 + self.object as u128) * 0x1_0000_0000
            + self.event as u128
    }
}

/// Gates that tell a service whether anyone listens to an event, so that it
/// can skip building the payload when nobody does.
pub struct EventMap {
    gates: HashMap<u128, bool>,
}

impl EventMap {
    /// Whether `k` is marked as listened to: present with `true`.
    pub closed spec fn is_open(&self, k: EventMapKey) -> bool {
        self.gates@.contains_key(key_code(k)) && self.gates@[key_code(k)]
    }

    /// A map with every gate closed.
    pub fn new() -> (r: Self)
        ensures
            forall|k: EventMapKey| !r.is_open(k),
    {
        EventMap { gates: HashMap::new() }
    }

    /// Marks `key` as listened to or not; the other keys keep their marks.
    pub fn set(&mut self, key: EventMapKey, open: bool)
        ensures
            forall|k: EventMapKey|
                #![trigger final(self).is_open(k)]
                final(self).is_open(k) == if k == key {
                    open
                } else {
                    old(self).is_open(k)
                },
    {
        let c = key.code();
        self.gates.insert(c, open);
        proof {
            assert forall|k: EventMapKey| k != key implies key_code(k) != c by {
                if key_code(k) == c {
                    lemma_key_code_injective(k, key);
                }
            }
        }
    }

    /// Whether `key` is marked as listened to.
    pub fn get(&self, key: EventMapKey) -> (r: bool)
        ensures
            r == self.is_open(key),
    {
        match self.gates.get(&key.code()) {
            Some(b) => *b,
            None => false,
        }
    }
}

/// Whether anyone listens to event `event` of object `object` of service
/// `service`: its key is present with `true`.
pub fn is_event_in_map(map: &EventMap, service: u32, object: u32, event: u32) -> (r: bool)
    ensures
        r == map.is_open(EventMapKey { service, object, event }),
{
    map.get(EventMapKey::new(service, object, event))
}

/// One observer registration: which session listens to which event.
#[derive(Debug, Clone, Copy, PartialEq, Eq, Structural)]
pub struct Registration {
    pub id: u32,
    pub session: u32,
    pub key: EventMapKey,
}

/// Whether some registration of `regs` listens to `k`.
pub open spec fn has_listener(regs: Seq<Registration>, k: EventMapKey) -> bool {
    exists|i: int| 0 <= i < regs.len() && (#[trigger] regs[i]).key == k
}

/// Whether some registration of `regs` has dispatcher id `id`.
pub open spec fn has_id(regs: Seq<Registration>, id: u32) -> bool {
    exists|i: int| 0 <= i < regs.len() && (#[trigger] regs[i]).id == id
}

/// The sessions that listen to `k`, in the order they registered.
pub open spec fn listeners(regs: Seq<Registration>, k: EventMapKey) -> Seq<u32>
    decreases regs.len(),
{
    if regs.len() == 0 {
        seq![]
    } else if regs.last().key == k {
        listeners(regs.drop_last(), k).push(regs.last().session)
    } else {
        listeners(regs.drop_last(), k)
    }
}

/// The message that carries event payload `content` to a listener of `k`.
pub open spec fn event_message(k: EventMapKey, content: Seq<u8>) -> MessageView {
    MessageView { service: k.service, object: k.object, kind: MessageType::Event, content }
}

/// A message bound for one session.
#[derive(Debug, Clone)]
pub struct Delivery {
    pub session: u32,
    pub message: BaseMessage,
}

impl View for Delivery {
    type V = (u32, MessageView);

    open spec fn view(&self) -> (u32, MessageView) {
        (self.session, self.message@)
    }
}

/// The deliveries of one event message to each of `sessions`.
pub open spec fn deliveries_to(sessions: Seq<u32>, m: MessageView) -> Seq<(u32, MessageView)> {
    sessions.map_values(|s: u32| (s, m))
}

/// The observers of one event source, and the gates that say which events
/// anyone listens to.
pub struct EventBroadcaster {
    ids: IdFactory,
    registrations: Vec<Registration>,
    gates: EventMap,
}

proof fn lemma_has_listener_push(regs: Seq<Registration>, r: Registration, k: EventMapKey)
    ensures
        has_listener(regs.push(r), k) == (has_listener(regs, k) || r.key == k),
{
    let s = regs.push(r);
    if has_listener(regs, k) {
        let i = choose|i: int| 0 <= i < regs.len() && (#[trigger] regs[i]).key == k;
        assert(s[i] == regs[i]);
    }
    if r.key == k {
        assert(s[regs.len() as int] == r);
    }
    if has_listener(s, k) {
        let i = choose|i: int| 0 <= i < s.len() && (#[trigger] s[i]).key == k;
        if i < regs.len() {
            assert(regs[i] == s[i]);
        }
    }
}

proof fn lemma_has_listener_remove(regs: Seq<Registration>, i: int, k: EventMapKey)
    requires
        0 <= i < regs.len(),
        regs[i].key != k,
    ensures
        has_listener(regs.remove(i), k) == has_listener(regs, k),
{
    let s = regs.remove(i);
    if has_listener(regs, k) {
        let j = choose|j: int| 0 <= j < regs.len() && (#[trigger] regs[j]).key == k;
        if j < i {
            assert(s[j] == regs[j]);
        } else {
            assert(s[j - 1] == regs[j]);
        }
    }
    if has_listener(s, k) {
        let j = choose|j: int| 0 <= j < s.len() && (#[trigger] s[j]).key == k;
        if j < i {
            assert(s[j] == regs[j]);
        } else {
            assert(s[j] == regs[j + 1]);
        }
    }
}

impl EventBroadcaster {
    /// The registrations, oldest first.
    pub closed spec fn registrations(&self) -> Seq<Registration> {
        self.registrations@
    }

    /// The next dispatcher id to hand out.
    pub closed spec fn issued(&self) -> nat {
        self.ids@
    }

    /// Whether `k` is marked as listened to.
    pub closed spec fn gate(&self, k: EventMapKey) -> bool {
        self.gates.is_open(k)
    }

    pub closed spec fn wf(&self) -> bool {
        &&& self.ids.wf()
        &&& forall|i: int|
            0 <= i < self.registrations@.len() ==> (#[trigger] self.registrations@[i]).id
                < self.ids@
        &&& forall|i: int, j: int|
            0 <= i < j < self.registrations@.len() ==> (#[trigger] self.registrations@[i]).id
                < (#[trigger] self.registrations@[j]).id
        &&& forall|k: EventMapKey| #[trigger]
            self.gates.is_open(k) == has_listener(self.registrations@, k)
    }

    /// A broadcaster with no observers, whose first dispatcher id is `origin`.
    pub fn new(origin: u32) -> (r: Self)
        ensures
            r.wf(),
            r.registrations() == Seq::<Registration>::empty(),
            r.issued() == origin as nat,
    {
        let r = EventBroadcaster {
            ids: IdFactory::new(origin),
            registrations: Vec::new(),
            gates: EventMap::new(),
        };
        r
    }

    /// Every open gate has a listener, and every listened-to event has its
    /// gate open.
    pub proof fn lemma_gate(&self, k: EventMapKey)
        requires
            self.wf(),
        ensures
            self.gate(k) == has_listener(self.registrations(), k),
    {
    }

    /// Whether anyone listens to `key`.
    pub fn is_listened(&self, key: EventMapKey) -> (r: bool)
        requires
            self.wf(),
        ensures
            r == has_listener(self.registrations(), key),
    {
        is_event_in_map(&self.gates, key.service, key.object, key.event)
    }

    /// The gates of this broadcaster.
    pub fn event_map(&self) -> (r: &EventMap)
        ensures
            forall|k: EventMapKey| r.is_open(k) == self.gate(k),
    {
        &self.gates
    }

    /// Registers `session` as a listener of `key` and opens its gate. Returns
    /// the dispatcher id that removes exactly this registration, or `None`
    /// once dispatcher ids are used up, and then nothing changes.
    pub fn add(&mut self, session: u32, key: EventMapKey) -> (r: Option<u32>)
        requires
            old(self).wf(),
        ensures
            final(self).wf(),
            match r {
                Some(id) => {
                    &&& final(self).registrations() == old(self).registrations().push(
                        Registration { id, session, key },
                    )
                    &&& forall|i: int|
                        0 <= i < old(self).registrations().len() ==> (#[trigger] old(self).registrations()[i]).id != id
                },
                None => final(self).registrations() == old(self).registrations(),
            },
            r is None <==> old(self).issued() > u32::MAX,
            r matches Some(id) ==> id as nat == old(self).issued(),
            forall|k: EventMapKey|
                #![trigger has_listener(final(self).registrations(), k)]
                has_listener(final(self).registrations(), k) == (has_listener(
                    old(self).registrations(),
                    k,
                ) || (r is Some && k == key)),
            final(self).issued() == if old(self).issued() > u32::MAX {
                old(self).issued()
            } else {
                old(self).issued() + 1
            },
    {
        let id = match self.ids.next_id() {
            Some(id) => id,
            None => return None,
        };
        let ghost before = self.registrations@;
        let reg = Registration { id, session, key };
        self.registrations.push(reg);
        self.gates.set(key, true);
        proof {
            assert forall|k: EventMapKey| #[trigger]
                self.gates.is_open(k) == has_listener(self.registrations@, k) by {
                lemma_has_listener_push(before, reg, k);
            }
            assert forall|i: int| 0 <= i < before.len() implies (#[trigger] before[i]).id != id by {
            }
            assert forall|k: EventMapKey|
                has_listener(self.registrations@, k) == (has_listener(before, k) || k == key) by {
                lemma_has_listener_push(before, reg, k);
            }
        }
        Some(id)
    }

    /// Unregisters dispatcher `id`; returns whether it was registered. The
    /// gate of its event stays open only while another registration listens.
    pub fn remove(&mut self, id: u32) -> (r: bool)
        requires
            old(self).wf(),
        ensures
            final(self).wf(),
            final(self).issued() == old(self).issued(),
            r == exists|i: int|
                0 <= i < old(self).registrations().len() && (#[trigger] old(self).registrations()[i]).id == id,
            forall|i: int|
                0 <= i < old(self).registrations().len() && (#[trigger] old(self).registrations()[i]).id == id ==> final(self).registrations() == old(self).registrations().remove(i),
            !r ==> final(self).registrations() == old(self).registrations(),
            !has_id(final(self).registrations(), id),
            forall|x: Registration|
                #![trigger final(self).registrations().contains(x)]
                final(self).registrations().contains(x) <==> (old(self).registrations().contains(x)
                    && x.id != id),
    {
        let ghost before = self.registrations@;
        let n = self.registrations.len();
        let mut i: usize = 0;
        while i < n
            invariant
                n == before.len(),
                i <= n,
                self.registrations@ == before,
                forall|j: int| 0 <= j < i ==> (#[trigger] before[j]).id != id,
            ensures
                i < n ==> before[i as int].id == id,
                forall|j: int| 0 <= j < i ==> (#[trigger] before[j]).id != id,
            decreases n - i,
        {
            if self.registrations[i].id == id {
                break;
            }
            i = i + 1;
        }
        if i == n {
            proof {
                assert forall|x: Registration| before.contains(x) implies x.id != id by {
                    let j = choose|j: int| 0 <= j < before.len() && before[j] == x;
                    assert(before[j].id != id);
                }
                if has_id(self.registrations@, id) {
                    let j = choose|j: int|
                        0 <= j < self.registrations@.len() && (#[trigger] self.registrations@[j]).id
                            == id;
                    assert(before[j].id == id);
                }
            }
            return false;
        }
        let ghost removed_at = i as int;
        let removed = self.registrations.remove(i);
        let key = removed.key;
        let mut still = false;
        let mut j: usize = 0;
        let m = self.registrations.len();
        while j < m
            invariant
                m == self.registrations@.len(),
                j <= m,
                still == exists|t: int| 0 <= t < j && (#[trigger] self.registrations@[t]).key == key,
            decreases m - j,
        {
            if self.registrations[j].key == key {
                still = true;
            }
            j = j + 1;
        }
        self.gates.set(key, still);
        proof {
            let after = self.registrations@;
            assert(old(self).registrations()[i as int].id == id);
            assert(after =~= before.remove(i as int));
            assert forall|k: EventMapKey| #[trigger]
                self.gates.is_open(k) == has_listener(after, k) by {
                if k != key {
                    lemma_has_listener_remove(before, i as int, k);
                }
            }
            assert forall|a: int, b: int| 0 <= a < b < after.len() implies (#[trigger] after[a]).id
                < (#[trigger] after[b]).id by {
                let a0 = if a < i { a } else { a + 1 };
                let b0 = if b < i { b } else { b + 1 };
                assert(after[a] == before[a0]);
                assert(after[b] == before[b0]);
            }
            assert forall|a: int| 0 <= a < after.len() implies (#[trigger] after[a]).id
                < self.ids@ by {
                let a0 = if a < i { a } else { a + 1 };
                assert(after[a] == before[a0]);
            }
            assert forall|t: int|
                0 <= t < before.len() && (#[trigger] before[t]).id == id implies t == i by {
                if t < i {
                    assert(before[t].id < before[i as int].id);
                } else if t > i {
                    assert(before[i as int].id < before[t].id);
                }
            }
            assert forall|x: Registration| after.contains(x) <==> (before.contains(x) && x.id != id) by {
                if after.contains(x) {
                    let j = choose|j: int| 0 <= j < after.len() && after[j] == x;
                    let j0 = if j < removed_at { j } else { j + 1 };
                    assert(after[j] == before[j0]);
                    if j0 < removed_at {
                        assert(before[j0].id < before[removed_at].id);
                    } else {
                        assert(before[removed_at].id < before[j0].id);
                    }
                }
                if before.contains(x) && x.id != id {
                    let j = choose|j: int| 0 <= j < before.len() && before[j] == x;
                    if j < removed_at {
                        assert(after[j] == x);
                    } else {
                        assert(j != removed_at);
                        assert(after[j - 1] == x);
                    }
                }
            }
            if has_id(after, id) {
                let j = choose|j: int| 0 <= j < after.len() && (#[trigger] after[j]).id == id;
                let j0 = if j < removed_at { j } else { j + 1 };
                assert(after[j] == before[j0]);
                if j0 < removed_at {
                    assert(before[j0].id < before[removed_at].id);
                } else {
                    assert(before[removed_at].id < before[j0].id);
                }
            }
        }
        true
    }

    /// The messages that carry event payload `content` to every listener of
    /// `key`, in registration order. With no listener there is none.
    pub fn broadcast(&self, key: EventMapKey, content: &Vec<u8>) -> (r: Vec<Delivery>)
        ensures
            r@.len() == listeners(self.registrations(), key).len(),
            forall|i: int|
                0 <= i < r@.len() ==> (#[trigger] r@[i]).session == listeners(
                    self.registrations(),
                    key,
                )[i] && r@[i].message@ == event_message(key, content@),
            r@.map_values(|d: Delivery| d@) == deliveries_to(
                listeners(self.registrations(), key),
                event_message(key, content@),
            ),
    {
        let mut out: Vec<Delivery> = Vec::new();
        let n = self.registrations.len();
        let mut i: usize = 0;
        while i < n
            invariant
                n == self.registrations@.len(),
                i <= n,
                out@.len() == listeners(self.registrations@.subrange(0, i as int), key).len(),
                forall|t: int|
                    0 <= t < out@.len() ==> (#[trigger] out@[t]).session == listeners(
                        self.registrations@.subrange(0, i as int),
                        key,
                    )[t] && out@[t].message@ == event_message(key, content@),
            decreases n - i,
        {
            let reg = self.registrations[i];
            let ghost prev = self.registrations@.subrange(0, i as int);
            let ghost next = self.registrations@.subrange(0, i + 1);
            proof {
                assert(next.drop_last() =~= prev);
            }
            if reg.key == key {
                let message = BaseMessage {
                    service: key.service,
                    object: key.object,
                    kind: MessageType::Event,
                    content: copy_range(content.as_slice(), 0, content.len()),
                };
                proof {
                    assert(content@.subrange(0, content@.len() as int) =~= content@);
                }
                out.push(Delivery { session: reg.session, message });
            }
            i = i + 1;
        }
        proof {
            assert(self.registrations@.subrange(0, n as int) =~= self.registrations@);
            assert(out@.map_values(|d: Delivery| d@) =~= deliveries_to(
                listeners(self.registrations(), key),
                event_message(key, content@),
            ));
        }
        out
    }
}

/// Adding a registration and then removing it by its dispatcher id gives
/// every gate back the state it had before.
pub proof fn lemma_add_remove_restores_gate(
    before: EventBroadcaster,
    after: EventBroadcaster,
    reg: Registration,
    k: EventMapKey,
)
    requires
        before.wf(),
        after.wf(),
        after.registrations() == before.registrations().push(reg).remove(
            before.registrations().len() as int,
        ),
    ensures
        after.gate(k) == before.gate(k),
{
    assert(after.registrations() =~= before.registrations());
}

/// With two registrations for one event, removing either leaves its gate open.
pub proof fn lemma_two_listeners_one_removed(
    before: EventBroadcaster,
    after: EventBroadcaster,
    first: Registration,
    second: Registration,
    removed: int,
)
    requires
        after.wf(),
        first.key == second.key,
        removed == before.registrations().len() || removed == before.registrations().len() + 1,
        after.registrations() == before.registrations().push(first).push(second).remove(removed),
    ensures
        after.gate(first.key),
{
    let s = after.registrations();
    let n = before.registrations().len() as int;
    if removed == n {
        assert(s[n] == second);
    } else {
        assert(s[n] == first);
    }
}

/// A broadcast reaches each listener once, and nobody when nobody listens.
pub proof fn lemma_listeners_count(regs: Seq<Registration>, k: EventMapKey)
    ensures
        listeners(regs, k).len() == regs.filter(|r: Registration| r.key == k).len(),
        !has_listener(regs, k) ==> listeners(regs, k).len() == 0,
    decreases regs.len(),
{
    reveal(Seq::filter);
    if regs.len() > 0 {
        lemma_listeners_count(regs.drop_last(), k);
        if !has_listener(regs, k) {
            assert(regs[regs.len() - 1].key != k);
            assert forall|i: int| 0 <= i < regs.drop_last().len() implies (#[trigger] regs.drop_last()[i]).key != k by {
                assert(regs.drop_last()[i] == regs[i]);
            }
        }
    }
}

} // verus!

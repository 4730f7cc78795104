use vstd::prelude::*;

use crate::envelope::{consistent, decode, enc_envelope, EventEnvelope, EventEnvelopeView};

verus! {

/// Where the broker-level subscription of a channel key stands. A key that no
/// listener has asked for since its last release is unsubscribed, and has no phase.
#[derive(Debug, Clone, Copy, PartialEq, Eq, Structural)]
pub enum Phase {
    /// A subscribe command was sent and is not yet acknowledged.
    Subscribing,
    /// The broker acknowledged the subscription.
    Active,
    /// The last listener left; an unsubscribe command was sent.
    Unsubscribing,
}

/// A command for the inbound broker connection.
pub enum BrokerCommand {
    Subscribe(String),
    Unsubscribe(String),
}

/// One listener as the bridge sees it: its id, its channel key, and how many
/// delivered messages it has not consumed yet.
pub struct ListenerView {
    pub id: u64,
    pub key: Seq<char>,
    pub pending: nat,
}

/// The ids of listeners on `key` with room left under `capacity`, in order.
pub open spec fn receivers(ls: Seq<ListenerView>, key: Seq<char>, capacity: nat) -> Seq<u64>
    decreases ls.len(),
{
    if ls.len() == 0 {
        Seq::empty()
    } else {
        let l = ls.last();
        receivers(ls.drop_last(), key, capacity) + if l.key == key && l.pending < capacity {
            seq![l.id]
        } else {
            Seq::empty()
        }
    }
}

/// The ids of listeners on `key` whose backlog is full, in order.
pub open spec fn overflowing(ls: Seq<ListenerView>, key: Seq<char>, capacity: nat) -> Seq<u64>
    decreases ls.len(),
{
    if ls.len() == 0 {
        Seq::empty()
    } else {
        let l = ls.last();
        overflowing(ls.drop_last(), key, capacity) + if l.key == key && l.pending >= capacity {
            seq![l.id]
        } else {
            Seq::empty()
        }
    }
}

/// Some listener in `ls` is on `key`.
pub open spec fn listened(ls: Seq<ListenerView>, key: Seq<char>) -> bool {
    exists|i: int| 0 <= i < ls.len() && (#[trigger] ls[i]).key == key
}

/// Turns one inbound broker connection into independent per-listener deliveries.
/// It decides; the caller performs: it sends the returned commands to the broker,
/// reports the broker's acknowledgements, and hands each delivered message to the
/// listeners named.
pub struct SubscriptionBridge {
    ids: Vec<u64>,
    keys: Vec<String>,
    pending: Vec<u64>,
    chan_keys: Vec<String>,
    chan_phases: Vec<Phase>,
    next_id: u64,
    capacity: u64,
}

impl SubscriptionBridge {
    /// The listeners, in the order they started.
    pub closed spec fn listeners(self) -> Seq<ListenerView> {
        Seq::new(
            self.ids@.len(),
            |i: int| ListenerView { id: self.ids@[i], key: self.keys@[i]@, pending: self.pending@[i] as nat },
        )
    }

    /// The id the next listener receives.
    pub closed spec fn next_id(self) -> nat {
        self.next_id as nat
    }

    /// How many unconsumed messages a listener may hold before it counts as too slow.
    pub closed spec fn capacity(self) -> nat {
        self.capacity as nat
    }

    closed spec fn chan_index(self, key: Seq<char>) -> int {
        if exists|c: int| 0 <= c < self.chan_keys@.len() && (#[trigger] self.chan_keys@[c])@ == key {
            choose|c: int| 0 <= c < self.chan_keys@.len() && (#[trigger] self.chan_keys@[c])@ == key
        } else {
            -1
        }
    }

    /// Where the broker-level subscription for `key` stands; `None` when unsubscribed.
    pub closed spec fn phase_of(self, key: Seq<char>) -> Option<Phase> {
        let c = self.chan_index(key);
        if c >= 0 {
            Some(self.chan_phases@[c])
        } else {
            None
        }
    }

    /// Internal consistency: listener ids are unique and below `next_id`; each
    /// channel key appears once; a key with listeners is subscribing or active, and a
    /// key being released has none.
    pub closed spec fn wf(self) -> bool {
        &&& self.ids@.len() == self.keys@.len()
        &&& self.ids@.len() == self.pending@.len()
        &&& self.chan_keys@.len() == self.chan_phases@.len()
        &&& forall|i: int, j: int|
            0 <= i < self.ids@.len() && 0 <= j < self.ids@.len() && i != j
                ==> self.ids@[i] != self.ids@[j]
        &&& forall|i: int| 0 <= i < self.ids@.len() ==> #[trigger] self.ids@[i] < self.next_id
        &&& self.keys_unique()
        &&& forall|i: int| 0 <= i < self.keys@.len() ==> {
            let p = self.phase_of(#[trigger] self.keys@[i]@);
            p == Some(Phase::Subscribing) || p == Some(Phase::Active)
        }
        &&& forall|c: int| 0 <= c < self.chan_keys@.len() ==>
            (self.chan_phases@[c] == Phase::Unsubscribing <==> !listened(
                self.listeners(),
                (#[trigger] self.chan_keys@[c])@,
            ))
    }

    closed spec fn keys_unique(self) -> bool {
        &&& self.chan_keys@.len() == self.chan_phases@.len()
        &&& forall|c: int, d: int|
            0 <= c < self.chan_keys@.len() && 0 <= d < self.chan_keys@.len() && c != d
                ==> self.chan_keys@[c]@ != self.chan_keys@[d]@
    }

    proof fn lemma_same_phase(a: Self, b: Self, k: Seq<char>, ca: int, cb: int)
        requires
            a.keys_unique(),
            b.keys_unique(),
            0 <= ca < a.chan_keys@.len(),
            0 <= cb < b.chan_keys@.len(),
            a.chan_keys@[ca]@ == k,
            b.chan_keys@[cb]@ == k,
            a.chan_phases@[ca] == b.chan_phases@[cb],
        ensures
            a.phase_of(k) == b.phase_of(k),
    {
        a.lemma_index(ca);
        b.lemma_index(cb);
    }

    proof fn lemma_index(self, c: int)
        requires
            self.keys_unique(),
            0 <= c < self.chan_keys@.len(),
        ensures
            self.chan_index(self.chan_keys@[c]@) == c,
            self.phase_of(self.chan_keys@[c]@) == Some(self.chan_phases@[c]),
    {
        let k = self.chan_keys@[c]@;
        assert(exists|c2: int| 0 <= c2 < self.chan_keys@.len() && (#[trigger] self.chan_keys@[c2])@ == k);
    }

    proof fn lemma_absent(self, key: Seq<char>)
        requires
            forall|c: int| 0 <= c < self.chan_keys@.len() ==> (#[trigger] self.chan_keys@[c])@ != key,
        ensures
            self.phase_of(key) is None,
    {
    }

    /// A bridge with no listeners, where each listener may hold `capacity` unconsumed messages.
    pub fn new(capacity: u64) -> (r: Self)
        requires
            capacity > 0,
        ensures
            r.wf(),
            r.listeners().len() == 0,
            r.capacity() == capacity,
            r.next_id() == 0,
            forall|k: Seq<char>| (#[trigger] r.phase_of(k)) is None,
    {
        let r = SubscriptionBridge {
            ids: Vec::new(),
            keys: Vec::new(),
            pending: Vec::new(),
            chan_keys: Vec::new(),
            chan_phases: Vec::new(),
            next_id: 0,
            capacity,
        };
        assert forall|k: Seq<char>| (#[trigger] r.phase_of(k)) is None by {
            r.lemma_absent(k);
        }
        r
    }

    fn find_channel(&self, key: &String) -> (r: Option<usize>)
        requires
            self.wf(),
        ensures
            r matches Some(c) ==> c < self.chan_keys@.len() && self.chan_keys@[c as int]@ == key@
                && self.phase_of(key@) == Some(self.chan_phases@[c as int]),
            r is None ==> self.phase_of(key@) is None
                && forall|c: int| 0 <= c < self.chan_keys@.len() ==> (#[trigger] self.chan_keys@[c])@ != key@,
    {
        let mut c: usize = 0;
        while c < self.chan_keys.len()
            invariant
                self.wf(),
                c <= self.chan_keys@.len(),
                forall|d: int| 0 <= d < c ==> (#[trigger] self.chan_keys@[d])@ != key@,
            decreases self.chan_keys.len() - c,
        {
            if self.chan_keys[c] == *key {
                proof {
                    self.lemma_index(c as int);
                }
                return Some(c);
            }
            c = c + 1;
        }
        proof {
            self.lemma_absent(key@);
        }
        None
    }

    /// Where the broker-level subscription for `key` stands; `None` when unsubscribed.
    pub fn phase(&self, key: &String) -> (r: Option<Phase>)
        requires
            self.wf(),
        ensures
            r == self.phase_of(key@),
    {
        match self.find_channel(key) {
            Some(c) => Some(self.chan_phases[c]),
            None => None,
        }
    }

    /// How many listeners there are.
    pub fn listener_count(&self) -> (r: usize)
        requires
            self.wf(),
        ensures
            r == self.listeners().len(),
    {
        self.ids.len()
    }

    fn find_listener(&self, id: u64) -> (r: Option<usize>)
        requires
            self.wf(),
        ensures
            r matches Some(i) ==> i < self.ids@.len() && self.ids@[i as int] == id,
            r is None ==> forall|i: int| 0 <= i < self.ids@.len() ==> self.ids@[i] != id,
    {
        let mut i: usize = 0;
        while i < self.ids.len()
            invariant
                i <= self.ids@.len(),
                forall|j: int| 0 <= j < i ==> self.ids@[j] != id,
            decreases self.ids.len() - i,
        {
            if self.ids[i] == id {
                return Some(i);
            }
            i = i + 1;
        }
        None
    }

    /// Starts a listener on `key`. When the key is not subscribed, or its release is
    /// still in flight, the answer carries the subscribe command to send; a listener
    /// arriving while a subscription is pending or active joins it. `None` once every
    /// listener id has been used.
    pub fn listen(&mut self, key: String) -> (r: Option<(u64, Option<BrokerCommand>)>)
        requires
            old(self).wf(),
        ensures
            final(self).wf(),
            listen_post(*old(self), *final(self), key@, r),
    {
        if self.next_id == u64::MAX {
            return None;
        }
        let ghost pre = *self;
        let id = self.next_id;
        let cmd = match self.find_channel(&key) {
            Some(c) => {
                if self.chan_phases[c] == Phase::Unsubscribing {
                    self.chan_phases.set(c, Phase::Subscribing);
                    Some(BrokerCommand::Subscribe(key.clone()))
                } else {
                    None
                }
            },
            None => {
                self.chan_keys.push(key.clone());
                self.chan_phases.push(Phase::Subscribing);
                Some(BrokerCommand::Subscribe(key.clone()))
            },
        };
        self.ids.push(id);
        self.keys.push(key);
        self.pending.push(0);
        self.next_id = id + 1;
        proof {
            let k0 = self.keys@[self.keys@.len() - 1]@;
            assert(self.listeners() =~= pre.listeners().push(ListenerView { id, key: k0, pending: 0 }));
            assert(self.keys_unique()) by {
                assert forall|c: int, d: int|
                    0 <= c < self.chan_keys@.len() && 0 <= d < self.chan_keys@.len() && c != d
                    implies self.chan_keys@[c]@ != self.chan_keys@[d]@ by {
                    if c >= pre.chan_keys@.len() {
                        assert(self.chan_keys@[d] == pre.chan_keys@[d]);
                    } else if d >= pre.chan_keys@.len() {
                        assert(self.chan_keys@[c] == pre.chan_keys@[c]);
                    } else {
                        assert(self.chan_keys@[c] == pre.chan_keys@[c]);
                        assert(self.chan_keys@[d] == pre.chan_keys@[d]);
                    }
                }
            }
            let cc = self.chan_index(k0);
            assert(0 <= cc < self.chan_keys@.len() && self.chan_keys@[cc]@ == k0
                && self.chan_phases@[cc] != Phase::Unsubscribing) by {
                let c1 = if pre.chan_index(k0) >= 0 { pre.chan_index(k0) } else { pre.chan_keys@.len() as int };
                if pre.chan_index(k0) >= 0 {
                    pre.lemma_index(c1);
                    assert(pre.chan_keys@[c1]@ == k0) by {
                        assert(exists|c: int| 0 <= c < pre.chan_keys@.len() && (#[trigger] pre.chan_keys@[c])@ == k0);
                    }
                }
                assert(self.chan_keys@[c1]@ == k0);
                self.lemma_index(c1);
            }
            assert forall|k: Seq<char>| k != k0 implies #[trigger] self.phase_of(k) == pre.phase_of(k) by {
                if exists|c: int| 0 <= c < pre.chan_keys@.len() && (#[trigger] pre.chan_keys@[c])@ == k {
                    let c = choose|c: int| 0 <= c < pre.chan_keys@.len() && (#[trigger] pre.chan_keys@[c])@ == k;
                    assert(self.chan_keys@[c] == pre.chan_keys@[c]);
                    assert(self.chan_phases@[c] == pre.chan_phases@[c]);
                    Self::lemma_same_phase(pre, *self, k, c, c);
                } else {
                    assert forall|c: int| 0 <= c < self.chan_keys@.len() implies (#[trigger] self.chan_keys@[c])@ != k by {
                        if c < pre.chan_keys@.len() {
                            assert(self.chan_keys@[c] == pre.chan_keys@[c]);
                        }
                    }
                    self.lemma_absent(k);
                    pre.lemma_absent(k);
                }
            }
            assert forall|i: int, j: int|
                0 <= i < self.ids@.len() && 0 <= j < self.ids@.len() && i != j
                implies self.ids@[i] != self.ids@[j] by {
                if i < pre.ids@.len() && j < pre.ids@.len() {
                    assert(self.ids@[i] == pre.ids@[i]);
                    assert(self.ids@[j] == pre.ids@[j]);
                } else if i < pre.ids@.len() {
                    assert(self.ids@[i] == pre.ids@[i]);
                } else {
                    assert(self.ids@[j] == pre.ids@[j]);
                }
            }
            assert forall|i: int| 0 <= i < self.ids@.len() implies #[trigger] self.ids@[i] < self.next_id by {
                if i < pre.ids@.len() {
                    assert(self.ids@[i] == pre.ids@[i]);
                }
            }
            assert forall|i: int| 0 <= i < self.keys@.len() implies {
                let p = self.phase_of(#[trigger] self.keys@[i]@);
                p == Some(Phase::Subscribing) || p == Some(Phase::Active)
            } by {
                if i < pre.keys@.len() {
                    assert(self.keys@[i] == pre.keys@[i]);
                }
                self.lemma_index(cc);
            }
            assert forall|c: int| 0 <= c < self.chan_keys@.len() implies
                (self.chan_phases@[c] == Phase::Unsubscribing <==> !listened(
                    self.listeners(),
                    (#[trigger] self.chan_keys@[c])@,
                )) by {
                let k = self.chan_keys@[c]@;
                self.lemma_index(c);
                self.lemma_index(cc);
                if k == k0 {
                    assert(self.listeners()[self.listeners().len() - 1].key == k0);
                } else {
                    assert(c < pre.chan_keys@.len());
                    assert(self.chan_keys@[c] == pre.chan_keys@[c]);
                    assert(self.chan_phases@[c] == pre.chan_phases@[c]);
                    if listened(self.listeners(), k) {
                        let i = choose|i: int| 0 <= i < self.listeners().len() && (#[trigger] self.listeners()[i]).key == k;
                        assert(pre.listeners()[i].key == k);
                    }
                    if listened(pre.listeners(), k) {
                        let i = choose|i: int| 0 <= i < pre.listeners().len() && (#[trigger] pre.listeners()[i]).key == k;
                        assert(self.listeners()[i].key == k);
                    }
                }
            }
        }
        Some((id, cmd))
    }

    /// Whether some listener is on `key`.
    pub fn has_listener_on(&self, key: &String) -> (r: bool)
        requires
            self.wf(),
        ensures
            r == listened(self.listeners(), key@),
    {
        let mut i: usize = 0;
        while i < self.keys.len()
            invariant
                self.wf(),
                i <= self.keys@.len(),
                forall|j: int| 0 <= j < i ==> (#[trigger] self.keys@[j])@ != key@,
            decreases self.keys.len() - i,
        {
            if self.keys[i] == *key {
                assert(self.listeners()[i as int].key == key@);
                return true;
            }
            i = i + 1;
        }
        assert forall|j: int| 0 <= j < self.listeners().len() implies (#[trigger] self.listeners()[j]).key != key@ by {
            assert(self.keys@[j]@ != key@);
        }
        false
    }

    /// Ends the listener `id`. When it was the last listener on its key, the answer
    /// carries the unsubscribe command that releases the broker-level subscription.
    /// An unknown id changes nothing.
    pub fn cancel(&mut self, id: u64) -> (r: Option<BrokerCommand>)
        requires
            old(self).wf(),
        ensures
            final(self).wf(),
            cancel_post(*old(self), *final(self), id, r),
    {
        let ghost pre = *self;
        let i = match self.find_listener(id) {
            None => {
                assert forall|j: int| 0 <= j < pre.listeners().len() implies (#[trigger] pre.listeners()[j]).id != id by {
                    assert(pre.ids@[j] != id);
                }
                return None;
            },
            Some(i) => i,
        };
        let ghost k0 = self.keys@[i as int]@;
        let c = match self.find_channel(&self.keys[i]) {
            Some(c) => c,
            None => {
                assert(false);
                return None;
            },
        };
        let key = self.keys.remove(i);
        self.ids.remove(i);
        self.pending.remove(i);
        assert(self.listeners() =~= pre.listeners().remove(i as int));
        let still = self.has_listener_on_unchecked(&key);
        let r = if still {
            None
        } else {
            self.chan_phases.set(c, Phase::Unsubscribing);
            Some(BrokerCommand::Unsubscribe(key))
        };
        proof {
            assert(self.listeners() =~= pre.listeners().remove(i as int));
            assert(self.keys_unique());
            self.lemma_index(c as int);
            pre.lemma_index(c as int);
            assert forall|k: Seq<char>| k != k0 implies #[trigger] self.phase_of(k) == pre.phase_of(k) by {
                if exists|d: int| 0 <= d < pre.chan_keys@.len() && (#[trigger] pre.chan_keys@[d])@ == k {
                    let d = choose|d: int| 0 <= d < pre.chan_keys@.len() && (#[trigger] pre.chan_keys@[d])@ == k;
                    Self::lemma_same_phase(pre, *self, k, d, d);
                } else {
                    self.lemma_absent(k);
                    pre.lemma_absent(k);
                }
            }
            assert forall|a: int, b: int|
                0 <= a < self.ids@.len() && 0 <= b < self.ids@.len() && a != b
                implies self.ids@[a] != self.ids@[b] by {
                let a1 = if a < i { a } else { a + 1 };
                let b1 = if b < i { b } else { b + 1 };
                assert(self.ids@[a] == pre.ids@[a1]);
                assert(self.ids@[b] == pre.ids@[b1]);
            }
            assert forall|a: int| 0 <= a < self.ids@.len() implies #[trigger] self.ids@[a] < self.next_id by {
                let a1 = if a < i { a } else { a + 1 };
                assert(self.ids@[a] == pre.ids@[a1]);
            }
            assert forall|a: int| 0 <= a < self.keys@.len() implies {
                let p = self.phase_of(#[trigger] self.keys@[a]@);
                p == Some(Phase::Subscribing) || p == Some(Phase::Active)
            } by {
                let a1 = if a < i { a } else { a + 1 };
                assert(self.keys@[a] == pre.keys@[a1]);
                assert(self.listeners()[a].key == self.keys@[a]@);
                let p0 = pre.phase_of(pre.keys@[a1]@);
                assert(p0 == Some(Phase::Subscribing) || p0 == Some(Phase::Active));
            }
            assert forall|d: int| 0 <= d < self.chan_keys@.len() implies
                (self.chan_phases@[d] == Phase::Unsubscribing <==> !listened(
                    self.listeners(),
                    (#[trigger] self.chan_keys@[d])@,
                )) by {
                let k = self.chan_keys@[d]@;
                if d != c {
                    assert(k != k0);
                    assert(self.chan_phases@[d] == pre.chan_phases@[d]);
                    if listened(self.listeners(), k) {
                        let a = choose|a: int| 0 <= a < self.listeners().len() && (#[trigger] self.listeners()[a]).key == k;
                        let a1 = if a < i { a } else { a + 1 };
                        assert(pre.listeners()[a1].key == k);
                    }
                    if listened(pre.listeners(), k) {
                        let a = choose|a: int| 0 <= a < pre.listeners().len() && (#[trigger] pre.listeners()[a]).key == k;
                        assert(a != i);
                        let a2 = if a < i { a } else { a - 1 };
                        assert(self.listeners()[a2].key == k);
                    }
                } else {
                    assert(pre.listeners()[i as int].key == k0);
                }
            }
            assert forall|j: int| 0 <= j < pre.listeners().len() && (#[trigger] pre.listeners()[j]).id == id
                implies j == i by {
                assert(pre.ids@[j] == id);
            }
            assert(pre.listeners()[i as int].id == id);
            if still {
                Self::lemma_same_phase(pre, *self, k0, c as int, c as int);
            }
        }
        r
    }

    fn has_listener_on_unchecked(&self, key: &String) -> (r: bool)
        requires
            self.ids@.len() == self.keys@.len(),
            self.ids@.len() == self.pending@.len(),
        ensures
            r == listened(self.listeners(), key@),
    {
        let mut i: usize = 0;
        while i < self.keys.len()
            invariant
                self.ids@.len() == self.keys@.len(),
                self.ids@.len() == self.pending@.len(),
                i <= self.keys@.len(),
                forall|j: int| 0 <= j < i ==> (#[trigger] self.keys@[j])@ != key@,
            decreases self.keys.len() - i,
        {
            if self.keys[i] == *key {
                assert(self.listeners()[i as int].key == key@);
                return true;
            }
            i = i + 1;
        }
        assert forall|j: int| 0 <= j < self.listeners().len() implies (#[trigger] self.listeners()[j]).key != key@ by {
            assert(self.keys@[j]@ != key@);
        }
        false
    }

    /// The broker acknowledged a subscription to `key`: a pending one becomes active.
    pub fn on_subscribed(&mut self, key: &String)
        requires
            old(self).wf(),
        ensures
            final(self).wf(),
            final(self).listeners() == old(self).listeners(),
            final(self).next_id() == old(self).next_id(),
            final(self).capacity() == old(self).capacity(),
            final(self).phase_of(key@) == if old(self).phase_of(key@) == Some(Phase::Subscribing) {
                Some(Phase::Active)
            } else {
                old(self).phase_of(key@)
            },
            forall|k: Seq<char>| #![trigger final(self).phase_of(k)]
                k != key@ ==> final(self).phase_of(k) == old(self).phase_of(k),
    {
        let ghost pre = *self;
        if let Some(c) = self.find_channel(key) {
            if self.chan_phases[c] == Phase::Subscribing {
                self.chan_phases.set(c, Phase::Active);
                proof {
                    assert(self.keys_unique());
                    self.lemma_index(c as int);
                    assert forall|k: Seq<char>| k != key@ implies #[trigger] self.phase_of(k) == pre.phase_of(k) by {
                        if exists|d: int| 0 <= d < pre.chan_keys@.len() && (#[trigger] pre.chan_keys@[d])@ == k {
                            let d = choose|d: int| 0 <= d < pre.chan_keys@.len() && (#[trigger] pre.chan_keys@[d])@ == k;
                            Self::lemma_same_phase(pre, *self, k, d, d);
                        } else {
                            self.lemma_absent(k);
                            pre.lemma_absent(k);
                        }
                    }
                    assert forall|a: int| 0 <= a < self.keys@.len() implies {
                        let p = self.phase_of(#[trigger] self.keys@[a]@);
                        p == Some(Phase::Subscribing) || p == Some(Phase::Active)
                    } by {
                        let p0 = pre.phase_of(pre.keys@[a]@);
                        assert(p0 == Some(Phase::Subscribing) || p0 == Some(Phase::Active));
                    }
                    assert forall|d: int| 0 <= d < self.chan_keys@.len() implies
                        (self.chan_phases@[d] == Phase::Unsubscribing <==> !listened(
                            self.listeners(),
                            (#[trigger] self.chan_keys@[d])@,
                        )) by {
                        if d == c {
                            pre.lemma_index(c as int);
                        }
                    }
                }
            }
        }
    }

    /// The broker acknowledged the release of `key`: a key being released becomes
    /// unsubscribed, and keeps no state.
    pub fn on_unsubscribed(&mut self, key: &String)
        requires
            old(self).wf(),
        ensures
            final(self).wf(),
            final(self).listeners() == old(self).listeners(),
            final(self).next_id() == old(self).next_id(),
            final(self).capacity() == old(self).capacity(),
            final(self).phase_of(key@) == if old(self).phase_of(key@) == Some(Phase::Unsubscribing) {
                None
            } else {
                old(self).phase_of(key@)
            },
            forall|k: Seq<char>| #![trigger final(self).phase_of(k)]
                k != key@ ==> final(self).phase_of(k) == old(self).phase_of(k),
    {
        let ghost pre = *self;
        if let Some(c) = self.find_channel(key) {
            if self.chan_phases[c] == Phase::Unsubscribing {
                self.chan_keys.remove(c);
                self.chan_phases.remove(c);
                proof {
                    assert(self.keys_unique()) by {
                        assert forall|a: int, b: int|
                            0 <= a < self.chan_keys@.len() && 0 <= b < self.chan_keys@.len() && a != b
                            implies self.chan_keys@[a]@ != self.chan_keys@[b]@ by {
                            let a1 = if a < c { a } else { a + 1 };
                            let b1 = if b < c { b } else { b + 1 };
                            assert(self.chan_keys@[a] == pre.chan_keys@[a1]);
                            assert(self.chan_keys@[b] == pre.chan_keys@[b1]);
                        }
                    }
                    pre.lemma_index(c as int);
                    assert forall|d: int| 0 <= d < self.chan_keys@.len() implies (#[trigger] self.chan_keys@[d])@ != key@ by {
                        let d1 = if d < c { d } else { d + 1 };
                        assert(self.chan_keys@[d] == pre.chan_keys@[d1]);
                    }
                    self.lemma_absent(key@);
                    assert forall|k: Seq<char>| k != key@ implies #[trigger] self.phase_of(k) == pre.phase_of(k) by {
                        if exists|d: int| 0 <= d < pre.chan_keys@.len() && (#[trigger] pre.chan_keys@[d])@ == k {
                            let d = choose|d: int| 0 <= d < pre.chan_keys@.len() && (#[trigger] pre.chan_keys@[d])@ == k;
                            assert(d != c);
                            let d2 = if d < c { d } else { d - 1 };
                            assert(self.chan_keys@[d2] == pre.chan_keys@[d]);
                            Self::lemma_same_phase(pre, *self, k, d, d2);
                        } else {
                            assert forall|d: int| 0 <= d < self.chan_keys@.len() implies (#[trigger] self.chan_keys@[d])@ != k by {
                                let d1 = if d < c { d } else { d + 1 };
                                assert(self.chan_keys@[d] == pre.chan_keys@[d1]);
                            }
                            self.lemma_absent(k);
                            pre.lemma_absent(k);
                        }
                    }
                    assert forall|a: int| 0 <= a < self.keys@.len() implies {
                        let p = self.phase_of(#[trigger] self.keys@[a]@);
                        p == Some(Phase::Subscribing) || p == Some(Phase::Active)
                    } by {
                        let p0 = pre.phase_of(pre.keys@[a]@);
                        assert(p0 == Some(Phase::Subscribing) || p0 == Some(Phase::Active));
                    }
                    assert forall|d: int| 0 <= d < self.chan_keys@.len() implies
                        (self.chan_phases@[d] == Phase::Unsubscribing <==> !listened(
                            self.listeners(),
                            (#[trigger] self.chan_keys@[d])@,
                        )) by {
                        let d1 = if d < c { d } else { d + 1 };
                        assert(self.chan_keys@[d] == pre.chan_keys@[d1]);
                        assert(self.chan_phases@[d] == pre.chan_phases@[d1]);
                    }
                }
            }
        }
    }

    /// Decides who receives one message published to `key`: every listener on the
    /// key with room in its backlog receives it once, and counts it as pending; the
    /// listeners on the key whose backlog is full are named as overflowing, for the
    /// caller to drop. Returns (receivers, overflowing).
    pub fn fan_out(&mut self, key: &String) -> (r: (Vec<u64>, Vec<u64>))
        requires
            old(self).wf(),
        ensures
            final(self).wf(),
            r.0@ == receivers(old(self).listeners(), key@, old(self).capacity()),
            r.1@ == overflowing(old(self).listeners(), key@, old(self).capacity()),
            final(self).listeners() == delivered(old(self).listeners(), key@, old(self).capacity()),
            final(self).next_id() == old(self).next_id(),
            final(self).capacity() == old(self).capacity(),
            forall|k: Seq<char>| #[trigger] final(self).phase_of(k) == old(self).phase_of(k),
    {
        let ghost pre = *self;
        let ghost ls = pre.listeners();
        let ghost cap = pre.capacity();
        let mut recv: Vec<u64> = Vec::new();
        let mut over: Vec<u64> = Vec::new();
        let mut i: usize = 0;
        while i < self.ids.len()
            invariant
                pre.wf(),
                ls == pre.listeners(),
                cap == pre.capacity(),
                self.ids == pre.ids,
                self.keys == pre.keys,
                self.chan_keys == pre.chan_keys,
                self.chan_phases == pre.chan_phases,
                self.next_id == pre.next_id,
                self.capacity == pre.capacity,
                self.pending@.len() == pre.pending@.len(),
                i <= self.ids@.len(),
                recv@ == receivers(ls.subrange(0, i as int), key@, cap),
                over@ == overflowing(ls.subrange(0, i as int), key@, cap),
                forall|j: int| 0 <= j < i ==> #[trigger] self.pending@[j] as nat == delivered(ls, key@, cap)[j].pending,
                forall|j: int| i <= j < self.pending@.len() ==> #[trigger] self.pending@[j] == pre.pending@[j],
            decreases self.ids.len() - i,
        {
            assert(ls.subrange(0, i as int + 1).drop_last() =~= ls.subrange(0, i as int));
            assert(ls.subrange(0, i as int + 1).last() == ls[i as int]);
            if self.keys[i] == *key {
                if self.pending[i] < self.capacity {
                    recv.push(self.ids[i]);
                    let p = self.pending[i];
                    self.pending.set(i, p + 1);
                } else {
                    over.push(self.ids[i]);
                }
            }
            i = i + 1;
        }
        proof {
            assert(ls.subrange(0, i as int) =~= ls);
            assert(self.listeners() =~= delivered(ls, key@, cap));
            assert forall|k: Seq<char>| #[trigger] self.phase_of(k) == pre.phase_of(k) by {
                assert(self.chan_index(k) == pre.chan_index(k));
            }
            assert forall|d: int| 0 <= d < self.chan_keys@.len() implies
                (self.chan_phases@[d] == Phase::Unsubscribing <==> !listened(
                    self.listeners(),
                    (#[trigger] self.chan_keys@[d])@,
                )) by {
                let k = self.chan_keys@[d]@;
                if listened(self.listeners(), k) {
                    let a = choose|a: int| 0 <= a < self.listeners().len() && (#[trigger] self.listeners()[a]).key == k;
                    assert(pre.listeners()[a].key == k);
                }
                if listened(pre.listeners(), k) {
                    let a = choose|a: int| 0 <= a < pre.listeners().len() && (#[trigger] pre.listeners()[a]).key == k;
                    assert(self.listeners()[a].key == k);
                }
            }
            assert forall|a: int| 0 <= a < self.keys@.len() implies {
                let p = self.phase_of(#[trigger] self.keys@[a]@);
                p == Some(Phase::Subscribing) || p == Some(Phase::Active)
            } by {
                assert(self.chan_index(self.keys@[a]@) == pre.chan_index(pre.keys@[a]@));
            }
        }
        (recv, over)
    }

    /// The listener `id` consumed one delivered message. An unknown id, or one with
    /// nothing pending, changes nothing. Returns whether a pending message was counted off.
    pub fn consumed(&mut self, id: u64) -> (r: bool)
        requires
            old(self).wf(),
        ensures
            final(self).wf(),
            final(self).next_id() == old(self).next_id(),
            final(self).capacity() == old(self).capacity(),
            forall|k: Seq<char>| #[trigger] final(self).phase_of(k) == old(self).phase_of(k),
            final(self).listeners().len() == old(self).listeners().len(),
            r <==> exists|i: int| 0 <= i < old(self).listeners().len()
                && (#[trigger] old(self).listeners()[i]).id == id && old(self).listeners()[i].pending > 0,
            forall|i: int| 0 <= i < old(self).listeners().len() ==> {
                let l = #[trigger] old(self).listeners()[i];
                final(self).listeners()[i] == if l.id == id && l.pending > 0 {
                    ListenerView { id: l.id, key: l.key, pending: (l.pending - 1) as nat }
                } else {
                    l
                }
            },
    {
        let ghost pre = *self;
        let r = match self.find_listener(id) {
            None => {
                assert forall|j: int| 0 <= j < pre.listeners().len() implies (#[trigger] pre.listeners()[j]).id != id by {
                    assert(pre.ids@[j] != id);
                }
                false
            },
            Some(i) => {
                proof {
                    assert(pre.listeners()[i as int].id == id);
                    assert forall|j: int| 0 <= j < pre.listeners().len() && (#[trigger] pre.listeners()[j]).id == id
                        implies j == i by {
                        assert(pre.ids@[j] == id);
                    }
                }
                if self.pending[i] > 0 {
                    let p = self.pending[i];
                    self.pending.set(i, p - 1);
                    true
                } else {
                    false
                }
            },
        };
        proof {
            assert forall|k: Seq<char>| #[trigger] self.phase_of(k) == pre.phase_of(k) by {
                assert(self.chan_index(k) == pre.chan_index(k));
            }
            assert forall|i: int, j: int|
                0 <= i < pre.ids@.len() && 0 <= j < pre.ids@.len() && pre.ids@[i] == id && pre.ids@[j] == id
                implies i == j by {
            }
            assert forall|d: int| 0 <= d < self.chan_keys@.len() implies
                (self.chan_phases@[d] == Phase::Unsubscribing <==> !listened(
                    self.listeners(),
                    (#[trigger] self.chan_keys@[d])@,
                )) by {
                let k = self.chan_keys@[d]@;
                if listened(self.listeners(), k) {
                    let a = choose|a: int| 0 <= a < self.listeners().len() && (#[trigger] self.listeners()[a]).key == k;
                    assert(pre.listeners()[a].key == k);
                }
                if listened(pre.listeners(), k) {
                    let a = choose|a: int| 0 <= a < pre.listeners().len() && (#[trigger] pre.listeners()[a]).key == k;
                    assert(self.listeners()[a].key == k);
                }
            }
            assert forall|a: int| 0 <= a < self.keys@.len() implies {
                let p = self.phase_of(#[trigger] self.keys@[a]@);
                p == Some(Phase::Subscribing) || p == Some(Phase::Active)
            } by {
                assert(self.chan_index(self.keys@[a]@) == pre.chan_index(pre.keys@[a]@));
            }
        }
        r
    }

    /// The inbound connection was re-established and holds no subscriptions: every
    /// key that has listeners is subscribed again (and is pending until acknowledged),
    /// and every key being released is released again. Returns one command per key.
    pub fn reconnect(&mut self) -> (cmds: Vec<BrokerCommand>)
        requires
            old(self).wf(),
        ensures
            final(self).wf(),
            final(self).listeners() == old(self).listeners(),
            final(self).next_id() == old(self).next_id(),
            final(self).capacity() == old(self).capacity(),
            forall|k: Seq<char>| #[trigger] final(self).phase_of(k) == if old(self).phase_of(k) == Some(Phase::Active) {
                Some(Phase::Subscribing)
            } else {
                old(self).phase_of(k)
            },
            forall|k: Seq<char>| #[trigger] old(self).phase_of(k) is Some ==> exists|j: int|
                0 <= j < cmds@.len() && command_for(#[trigger] cmds@[j], k, old(self).phase_of(k)->0),
            forall|j: int| 0 <= j < cmds@.len() ==> warranted(*old(self), #[trigger] cmds@[j]),
            forall|i: int, j: int|
                0 <= i < cmds@.len() && 0 <= j < cmds@.len() && i != j ==> command_key(cmds@[i]) != command_key(cmds@[j]),
    {
        let ghost pre = *self;
        let mut cmds: Vec<BrokerCommand> = Vec::new();
        let mut c: usize = 0;
        while c < self.chan_keys.len()
            invariant
                pre.wf(),
                self.ids == pre.ids,
                self.keys == pre.keys,
                self.pending == pre.pending,
                self.chan_keys == pre.chan_keys,
                self.next_id == pre.next_id,
                self.capacity == pre.capacity,
                self.chan_phases@.len() == pre.chan_phases@.len(),
                c <= self.chan_keys@.len(),
                cmds@.len() == c,
                forall|d: int| 0 <= d < c ==> command_for(#[trigger] cmds@[d], pre.chan_keys@[d]@, pre.chan_phases@[d]),
                forall|d: int| 0 <= d < c ==> #[trigger] self.chan_phases@[d] == if pre.chan_phases@[d] == Phase::Active {
                    Phase::Subscribing
                } else {
                    pre.chan_phases@[d]
                },
                forall|d: int| c <= d < self.chan_phases@.len() ==> #[trigger] self.chan_phases@[d] == pre.chan_phases@[d],
            decreases self.chan_keys.len() - c,
        {
            if self.chan_phases[c] == Phase::Unsubscribing {
                cmds.push(BrokerCommand::Unsubscribe(self.chan_keys[c].clone()));
            } else {
                self.chan_phases.set(c, Phase::Subscribing);
                cmds.push(BrokerCommand::Subscribe(self.chan_keys[c].clone()));
            }
            c = c + 1;
        }
        proof {
            assert(self.keys_unique());
            assert forall|k: Seq<char>| #[trigger] self.phase_of(k) == if pre.phase_of(k) == Some(Phase::Active) {
                Some(Phase::Subscribing)
            } else {
                pre.phase_of(k)
            } by {
                if exists|d: int| 0 <= d < pre.chan_keys@.len() && (#[trigger] pre.chan_keys@[d])@ == k {
                    let d = choose|d: int| 0 <= d < pre.chan_keys@.len() && (#[trigger] pre.chan_keys@[d])@ == k;
                    pre.lemma_index(d);
                    self.lemma_index(d);
                } else {
                    self.lemma_absent(k);
                    pre.lemma_absent(k);
                }
            }
            assert forall|k: Seq<char>| #[trigger] pre.phase_of(k) is Some implies exists|j: int|
                0 <= j < cmds@.len() && command_for(#[trigger] cmds@[j], k, pre.phase_of(k)->0) by {
                let d = pre.chan_index(k);
                assert(0 <= d < pre.chan_keys@.len() && pre.chan_keys@[d]@ == k) by {
                    assert(exists|d: int| 0 <= d < pre.chan_keys@.len() && (#[trigger] pre.chan_keys@[d])@ == k);
                }
                assert(command_for(cmds@[d], k, pre.phase_of(k)->0));
            }
            assert forall|j: int| 0 <= j < cmds@.len() implies warranted(pre, #[trigger] cmds@[j]) by {
                pre.lemma_index(j);
                let k = pre.chan_keys@[j]@;
                assert(pre.phase_of(k) is Some && command_for(cmds@[j], k, pre.phase_of(k)->0));
            }
            assert forall|a: int| 0 <= a < self.keys@.len() implies {
                let p = self.phase_of(#[trigger] self.keys@[a]@);
                p == Some(Phase::Subscribing) || p == Some(Phase::Active)
            } by {
                let p0 = pre.phase_of(pre.keys@[a]@);
                assert(p0 == Some(Phase::Subscribing) || p0 == Some(Phase::Active));
            }
            assert forall|d: int| 0 <= d < self.chan_keys@.len() implies
                (self.chan_phases@[d] == Phase::Unsubscribing <==> !listened(
                    self.listeners(),
                    (#[trigger] self.chan_keys@[d])@,
                )) by {
                assert(self.listeners() =~= pre.listeners());
            }
            assert(self.listeners() =~= pre.listeners());
            assert forall|i: int, j: int|
                0 <= i < cmds@.len() && 0 <= j < cmds@.len() && i != j implies command_key(cmds@[i]) != command_key(
                    cmds@[j],
                ) by {
                assert(command_for(cmds@[i], pre.chan_keys@[i]@, pre.chan_phases@[i]));
                assert(command_for(cmds@[j], pre.chan_keys@[j]@, pre.chan_phases@[j]));
            }
        }
        cmds
    }

    fn first_on(&self, key: &String) -> (r: Option<usize>)
        requires
            self.wf(),
        ensures
            r matches Some(i) ==> i < self.listeners().len() && self.listeners()[i as int].key == key@,
            r is None ==> !listened(self.listeners(), key@),
    {
        let mut i: usize = 0;
        while i < self.keys.len()
            invariant
                self.wf(),
                i <= self.keys@.len(),
                forall|j: int| 0 <= j < i ==> (#[trigger] self.keys@[j])@ != key@,
            decreases self.keys.len() - i,
        {
            if self.keys[i] == *key {
                return Some(i);
            }
            i = i + 1;
        }
        assert forall|j: int| 0 <= j < self.listeners().len() implies (#[trigger] self.listeners()[j]).key != key@ by {
            assert(self.keys@[j]@ != key@);
        }
        None
    }

    /// The broker refused or could not take the subscription to `key`. If it was
    /// pending, every listener on `key` is ended and the key keeps no state; the
    /// answer names the ended listeners, whose callers get a retryable error.
    /// Otherwise nothing changes.
    pub fn on_subscribe_failed(&mut self, key: &String) -> (r: Vec<u64>)
        requires
            old(self).wf(),
        ensures
            final(self).wf(),
            subscribe_failed_post(*old(self), *final(self), key@, r@),
    {
        let ghost pre = *self;
        let mut ended: Vec<u64> = Vec::new();
        match self.phase(key) {
            Some(Phase::Subscribing) => {},
            _ => return ended,
        }
        proof {
            assert(ended@ =~= Seq::<u64>::empty());
            assert forall|i: int| 0 <= i < pre.listeners().len() implies exists|j: int|
                0 <= j < pre.listeners().len() && pre.listeners()[j] == #[trigger] pre.listeners()[i] by {}
        }
        while self.has_listener_on(key)
            invariant
                self.wf(),
                self.next_id() == pre.next_id(),
                self.capacity() == pre.capacity(),
                self.phase_of(key@) == if listened(self.listeners(), key@) {
                    Some(Phase::Subscribing)
                } else {
                    Some(Phase::Unsubscribing)
                },
                forall|k: Seq<char>| #![trigger self.phase_of(k)] k != key@ ==> self.phase_of(k) == pre.phase_of(k),
                drawn_from(pre.listeners(), self.listeners()),
                keeps_other_keys(pre.listeners(), self.listeners(), key@),
                ended_ok(pre.listeners(), self.listeners(), key@, ended@),
            decreases self.listeners().len(),
        {
            let i = match self.first_on(key) {
                Some(i) => i,
                // not reached: the loop condition found a listener on `key`
                None => {
                    return ended;
                },
            };
            let ghost before = *self;
            let ghost e0 = ended@;
            let id = self.ids[i];
            assert(before.listeners()[i as int].id == id);
            let _ = self.cancel(id);
            ended.push(id);
            proof {
                lemma_failed_step(pre.listeners(), before.listeners(), self.listeners(), i as int, key@, e0, ended@);
            }
        }
        self.on_unsubscribed(key);
        ended
    }

    /// Handles one raw message that the broker delivered for `key`. A payload that
    /// is not the wire form of a consistent envelope is dropped and changes nothing, so the
    /// listeners go on receiving later messages. Otherwise the envelope goes to the
    /// listeners on `key` as `fan_out` decides.
    pub fn on_message(&mut self, key: &String, payload: &Vec<u8>) -> (r: Delivery)
        requires
            old(self).wf(),
        ensures
            final(self).wf(),
            message_post(*old(self), *final(self), key@, payload@, r),
    {
        match decode(payload) {
            Err(_) => Delivery::Dropped,
            Ok(envelope) => {
                let (receivers, overflowing) = self.fan_out(key);
                Delivery::Deliver { envelope, receivers, overflowing }
            },
        }
    }
}

/// Every listener of `ls` was one of `pre`.
pub open spec fn drawn_from(pre: Seq<ListenerView>, ls: Seq<ListenerView>) -> bool {
    forall|i: int| 0 <= i < ls.len() ==> exists|j: int| 0 <= j < pre.len() && pre[j] == #[trigger] ls[i]
}

/// Every listener of `pre` on a key other than `key` is still in `ls`.
pub open spec fn keeps_other_keys(pre: Seq<ListenerView>, ls: Seq<ListenerView>, key: Seq<char>) -> bool {
    forall|j: int| 0 <= j < pre.len() && (#[trigger] pre[j]).key != key ==> exists|i: int|
        0 <= i < ls.len() && ls[i] == pre[j]
}

/// `ended` names listeners of `pre` on `key`, and every such listener is either
/// named or still in `ls`.
pub open spec fn ended_ok(pre: Seq<ListenerView>, ls: Seq<ListenerView>, key: Seq<char>, ended: Seq<u64>) -> bool {
    &&& forall|x: u64| #[trigger] ended.contains(x) ==> exists|j: int|
        0 <= j < pre.len() && (#[trigger] pre[j]).id == x && pre[j].key == key
    &&& forall|j: int| 0 <= j < pre.len() && (#[trigger] pre[j]).key == key ==> ended.contains(pre[j].id)
        || exists|i: int| 0 <= i < ls.len() && ls[i] == pre[j]
}

proof fn lemma_failed_step(
    pre: Seq<ListenerView>,
    ls0: Seq<ListenerView>,
    ls1: Seq<ListenerView>,
    i: int,
    key: Seq<char>,
    e0: Seq<u64>,
    e1: Seq<u64>,
)
    requires
        0 <= i < ls0.len(),
        ls0[i].key == key,
        ls1 == ls0.remove(i),
        e1 == e0.push(ls0[i].id),
        drawn_from(pre, ls0),
        keeps_other_keys(pre, ls0, key),
        ended_ok(pre, ls0, key, e0),
    ensures
        drawn_from(pre, ls1),
        keeps_other_keys(pre, ls1, key),
        ended_ok(pre, ls1, key, e1),
{
    assert forall|a: int| 0 <= a < ls1.len() implies exists|j: int| 0 <= j < pre.len() && pre[j] == #[trigger] ls1[a] by {
        let a0 = if a < i { a } else { a + 1 };
        assert(ls1[a] == ls0[a0]);
    }
    assert forall|j: int| 0 <= j < pre.len() && (#[trigger] pre[j]).key != key implies exists|a: int|
        0 <= a < ls1.len() && ls1[a] == pre[j] by {
        let a0 = choose|a: int| 0 <= a < ls0.len() && ls0[a] == pre[j];
        let a1 = if a0 < i { a0 } else { a0 - 1 };
        assert(ls1[a1] == ls0[a0]);
    }
    let x0 = ls0[i].id;
    assert(e1[e1.len() - 1] == x0);
    assert forall|x: u64| #[trigger] e1.contains(x) implies exists|j: int|
        0 <= j < pre.len() && (#[trigger] pre[j]).id == x && pre[j].key == key by {
        let k = choose|k: int| 0 <= k < e1.len() && e1[k] == x;
        if k < e0.len() {
            assert(e0[k] == x);
            assert(e0.contains(x));
        } else {
            let j = choose|j: int| 0 <= j < pre.len() && pre[j] == #[trigger] ls0[i];
            assert(pre[j].id == x && pre[j].key == key);
        }
    }
    assert forall|j: int| 0 <= j < pre.len() && (#[trigger] pre[j]).key == key implies e1.contains(pre[j].id)
        || exists|a: int| 0 <= a < ls1.len() && ls1[a] == pre[j] by {
        if e0.contains(pre[j].id) {
            let k = choose|k: int| 0 <= k < e0.len() && e0[k] == pre[j].id;
            assert(e1[k] == pre[j].id);
        } else {
            let a0 = choose|a: int| 0 <= a < ls0.len() && ls0[a] == pre[j];
            if a0 == i {
                assert(e1[e1.len() - 1] == pre[j].id);
            } else {
                let a1 = if a0 < i { a0 } else { a0 - 1 };
                assert(ls1[a1] == ls0[a0]);
            }
        }
    }
}

/// What `on_subscribe_failed(key)` does, from the state `before` to the state `after`,
/// answering `ended`: on a pending subscription every listener on `key` ends, the
/// others stay, and `ended` names exactly the ended ones.
pub open spec fn subscribe_failed_post(
    before: SubscriptionBridge,
    after: SubscriptionBridge,
    key: Seq<char>,
    ended: Seq<u64>,
) -> bool {
    &&& after.next_id() == before.next_id()
    &&& after.capacity() == before.capacity()
    &&& (before.phase_of(key) != Some(Phase::Subscribing) ==> after == before && ended.len() == 0)
    &&& (before.phase_of(key) == Some(Phase::Subscribing) ==> {
        &&& after.phase_of(key) is None
        &&& !listened(after.listeners(), key)
        &&& (forall|k: Seq<char>| #![trigger after.phase_of(k)] k != key ==> after.phase_of(k) == before.phase_of(k))
        &&& drawn_from(before.listeners(), after.listeners())
        &&& keeps_other_keys(before.listeners(), after.listeners(), key)
        &&& ended_ok(before.listeners(), after.listeners(), key, ended)
    })
}

/// What became of one raw message.
pub enum Delivery {
    /// The payload was not an envelope; nothing changed.
    Dropped,
    /// `envelope` goes to each of `receivers`; `overflowing` listeners are too slow
    /// and are to be dropped.
    Deliver { envelope: EventEnvelope, receivers: Vec<u64>, overflowing: Vec<u64> },
}

/// What `on_message(key, payload)` does, from the state `before` to the state `after`.
pub open spec fn message_post(
    before: SubscriptionBridge,
    after: SubscriptionBridge,
    key: Seq<char>,
    payload: Seq<u8>,
    r: Delivery,
) -> bool {
    &&& (r is Dropped <==> !exists|m: EventEnvelopeView| #[trigger] enc_envelope(m) == payload && consistent(m))
    &&& (r is Dropped ==> after == before)
    &&& (r matches Delivery::Deliver { envelope, receivers: rs, overflowing: os } ==> {
        &&& enc_envelope(envelope@) == payload
        &&& consistent(envelope@)
        &&& rs@ == receivers(before.listeners(), key, before.capacity())
        &&& os@ == overflowing(before.listeners(), key, before.capacity())
        &&& after.listeners() == delivered(before.listeners(), key, before.capacity())
        &&& after.next_id() == before.next_id()
        &&& after.capacity() == before.capacity()
        &&& forall|k: Seq<char>| #[trigger] after.phase_of(k) == before.phase_of(k)
    })
}

/// A malformed payload is dropped and leaves the bridge exactly as it was, so the
/// next valid message is delivered as if the malformed one had never come.
pub proof fn lemma_malformed_dropped(
    b0: SubscriptionBridge,
    b1: SubscriptionBridge,
    key: Seq<char>,
    payload: Seq<u8>,
    r: Delivery,
)
    requires
        message_post(b0, b1, key, payload, r),
        forall|m: EventEnvelopeView| #[trigger] enc_envelope(m) == payload ==> !consistent(m),
    ensures
        r is Dropped,
        b1 == b0,
{
}

/// The key a command is about.
pub open spec fn command_key(cmd: BrokerCommand) -> Seq<char> {
    match cmd {
        BrokerCommand::Subscribe(k) => k@,
        BrokerCommand::Unsubscribe(k) => k@,
    }
}

/// In a consistent bridge no two listeners share an id.
pub proof fn lemma_listener_ids_distinct(b: SubscriptionBridge)
    requires
        b.wf(),
    ensures
        forall|i: int, j: int|
            0 <= i < b.listeners().len() && 0 <= j < b.listeners().len() && i != j ==> b.listeners()[i].id
                != b.listeners()[j].id,
{
    assert forall|i: int, j: int|
        0 <= i < b.listeners().len() && 0 <= j < b.listeners().len() && i != j implies b.listeners()[i].id
            != b.listeners()[j].id by {
        assert(b.listeners()[i].id == b.ids@[i]);
        assert(b.listeners()[j].id == b.ids@[j]);
    }
}

/// Fan-out on a bridge: when no listener on `key` has a full backlog, one message
/// to `key` reaches every listener on `key` exactly once and no other listener.
pub proof fn lemma_bridge_fan_out(b: SubscriptionBridge, key: Seq<char>)
    requires
        b.wf(),
        forall|i: int| 0 <= i < b.listeners().len() && (#[trigger] b.listeners()[i]).key == key
            ==> b.listeners()[i].pending < b.capacity(),
    ensures
        receivers(b.listeners(), key, b.capacity()).no_duplicates(),
        forall|id: u64| #[trigger] receivers(b.listeners(), key, b.capacity()).contains(id) <==> exists|i: int|
            0 <= i < b.listeners().len() && (#[trigger] b.listeners()[i]).id == id && b.listeners()[i].key == key,
        overflowing(b.listeners(), key, b.capacity()).len() == 0,
{
    lemma_listener_ids_distinct(b);
    lemma_fan_out_exactly_once(b.listeners(), key, b.capacity());
}

/// `cmd` is what the connection needs for some key that `b` tracks.
pub open spec fn warranted(b: SubscriptionBridge, cmd: BrokerCommand) -> bool {
    exists|k: Seq<char>| #![trigger b.phase_of(k)] b.phase_of(k) is Some && command_for(cmd, k, b.phase_of(k)->0)
}

/// `cmd` is what the connection needs for `key` in `phase`: a release for a key
/// being released, a subscription otherwise.
pub open spec fn command_for(cmd: BrokerCommand, key: Seq<char>, phase: Phase) -> bool {
    if phase == Phase::Unsubscribing {
        cmd matches BrokerCommand::Unsubscribe(k) && k@ == key
    } else {
        cmd matches BrokerCommand::Subscribe(k) && k@ == key
    }
}

/// Fan-out: when no listener on `key` has a full backlog, one message to `key`
/// reaches every listener on `key` exactly once, reaches no other listener, and
/// drops nobody.
pub proof fn lemma_fan_out_exactly_once(ls: Seq<ListenerView>, key: Seq<char>, capacity: nat)
    requires
        forall|i: int, j: int| 0 <= i < ls.len() && 0 <= j < ls.len() && i != j ==> ls[i].id != ls[j].id,
        forall|i: int| 0 <= i < ls.len() && (#[trigger] ls[i]).key == key ==> ls[i].pending < capacity,
    ensures
        receivers(ls, key, capacity).no_duplicates(),
        forall|id: u64| #[trigger] receivers(ls, key, capacity).contains(id) <==> exists|i: int|
            0 <= i < ls.len() && (#[trigger] ls[i]).id == id && ls[i].key == key,
        overflowing(ls, key, capacity).len() == 0,
    decreases ls.len(),
{
    if ls.len() > 0 {
        let init = ls.drop_last();
        let l = ls.last();
        assert forall|i: int| 0 <= i < init.len() && (#[trigger] init[i]).key == key implies init[i].pending < capacity by {
            assert(init[i] == ls[i]);
        }
        lemma_fan_out_exactly_once(init, key, capacity);
        let r0 = receivers(init, key, capacity);
        let r = receivers(ls, key, capacity);
        assert forall|id: u64| r0.contains(id) implies id != l.id || l.key != key by {
            let j = choose|j: int| 0 <= j < init.len() && (#[trigger] init[j]).id == id && init[j].key == key;
            assert(ls[j] == init[j]);
        }
        if l.key == key {
            assert(r == r0.push(l.id));
            assert(!r0.contains(l.id));
            assert forall|a: int, b: int| 0 <= a < r.len() && 0 <= b < r.len() && a != b implies r[a] != r[b] by {
                if a < r0.len() && b < r0.len() {
                } else if a < r0.len() {
                    assert(r0.contains(r0[a]));
                } else {
                    assert(r0.contains(r0[b]));
                }
            }
        } else {
            assert(r =~= r0);
        }
        assert forall|id: u64| #[trigger] r.contains(id) <==> exists|i: int|
            0 <= i < ls.len() && (#[trigger] ls[i]).id == id && ls[i].key == key by {
            if r.contains(id) {
                if r0.contains(id) {
                    let j = choose|j: int| 0 <= j < init.len() && (#[trigger] init[j]).id == id && init[j].key == key;
                    assert(ls[j] == init[j]);
                } else {
                    let a = choose|a: int| 0 <= a < r.len() && r[a] == id;
                    assert(l.key == key && a == r0.len());
                    assert(ls[ls.len() - 1].id == id);
                }
            }
            if exists|i: int| 0 <= i < ls.len() && (#[trigger] ls[i]).id == id && ls[i].key == key {
                let i = choose|i: int| 0 <= i < ls.len() && (#[trigger] ls[i]).id == id && ls[i].key == key;
                if i < init.len() {
                    assert(init[i] == ls[i]);
                    assert(r0.contains(id));
                    let a = choose|a: int| 0 <= a < r0.len() && r0[a] == id;
                    assert(r[a] == id);
                } else {
                    assert(r[r.len() - 1] == id);
                }
            }
        }
        assert(overflowing(ls, key, capacity) =~= overflowing(init, key, capacity));
    }
}

/// Release and restart: when the only listener on `key` cancels, the broker-level
/// subscription is released; once the broker acknowledges, the key holds no state,
/// and a later `listen(key)` subscribes it again from scratch.
pub proof fn lemma_release_then_restart(
    b0: SubscriptionBridge,
    b1: SubscriptionBridge,
    b2: SubscriptionBridge,
    b3: SubscriptionBridge,
    id: u64,
    key: Seq<char>,
    r1: Option<BrokerCommand>,
    r3: Option<(u64, Option<BrokerCommand>)>,
)
    requires
        b0.wf(),
        exists|i: int| 0 <= i < b0.listeners().len() && (#[trigger] b0.listeners()[i]).id == id
            && b0.listeners()[i].key == key,
        forall|i: int| 0 <= i < b0.listeners().len() && (#[trigger] b0.listeners()[i]).key == key
            ==> b0.listeners()[i].id == id,
        cancel_post(b0, b1, id, r1),
        b2.listeners() == b1.listeners(),
        b2.next_id() == b1.next_id(),
        b2.phase_of(key) == (if b1.phase_of(key) == Some(Phase::Unsubscribing) { None } else { b1.phase_of(key) }),
        listen_post(b2, b3, key, r3),
        r3 is Some,
    ensures
        r1 matches Some(BrokerCommand::Unsubscribe(k)) && k@ == key,
        b1.phase_of(key) == Some(Phase::Unsubscribing),
        !listened(b1.listeners(), key),
        b2.phase_of(key) is None,
        r3 matches Some((_, Some(BrokerCommand::Subscribe(k)))) && k@ == key,
        b3.phase_of(key) == Some(Phase::Subscribing),
{
    let i = choose|i: int| 0 <= i < b0.listeners().len() && (#[trigger] b0.listeners()[i]).id == id
        && b0.listeners()[i].key == key;
    let ls1 = b0.listeners().remove(i);
    assert(b1.listeners() == ls1);
    if listened(ls1, key) {
        let a = choose|a: int| 0 <= a < ls1.len() && (#[trigger] ls1[a]).key == key;
        let a0 = if a < i { a } else { a + 1 };
        assert(b0.listeners()[a0] == ls1[a]);
        assert(b0.listeners()[a0].id == id);
        assert(b0.listeners()[a0].id == b0.ids@[a0]);
        assert(b0.listeners()[i].id == b0.ids@[i]);
    }
}

/// The listeners after one message to `key` was handed to those with room left.
pub open spec fn delivered(ls: Seq<ListenerView>, key: Seq<char>, capacity: nat) -> Seq<ListenerView> {
    Seq::new(
        ls.len(),
        |i: int| if ls[i].key == key && ls[i].pending < capacity {
            ListenerView { id: ls[i].id, key: ls[i].key, pending: ls[i].pending + 1 }
        } else {
            ls[i]
        },
    )
}

/// What `cancel(id)` does, from the state `before` to the state `after`.
pub open spec fn cancel_post(
    before: SubscriptionBridge,
    after: SubscriptionBridge,
    id: u64,
    r: Option<BrokerCommand>,
) -> bool {
    &&& after.next_id() == before.next_id()
    &&& after.capacity() == before.capacity()
    &&& ((forall|j: int| 0 <= j < before.listeners().len() ==> (#[trigger] before.listeners()[j]).id != id)
        ==> after == before && r is None)
    &&& forall|i: int| 0 <= i < before.listeners().len() && (#[trigger] before.listeners()[i]).id == id ==> {
        let key = before.listeners()[i].key;
        &&& after.listeners() == before.listeners().remove(i)
        &&& (listened(after.listeners(), key) ==> r is None && after.phase_of(key) == before.phase_of(key))
        &&& (!listened(after.listeners(), key) ==> (r matches Some(BrokerCommand::Unsubscribe(k)) && k@ == key)
            && after.phase_of(key) == Some(Phase::Unsubscribing))
        &&& forall|k: Seq<char>| #![trigger after.phase_of(k)] k != key ==> after.phase_of(k) == before.phase_of(k)
    }
}

/// What `listen(key)` does, from the state `before` to the state `after`.
pub open spec fn listen_post(
    before: SubscriptionBridge,
    after: SubscriptionBridge,
    key: Seq<char>,
    r: Option<(u64, Option<BrokerCommand>)>,
) -> bool {
    &&& (r is None <==> before.next_id() == u64::MAX as nat)
    &&& (r is None ==> after == before)
    &&& (r matches Some((id, cmd)) ==> {
        &&& id as nat == before.next_id()
        &&& after.next_id() == before.next_id() + 1
        &&& after.capacity() == before.capacity()
        &&& after.listeners() == before.listeners().push(ListenerView { id, key, pending: 0 })
        &&& match before.phase_of(key) {
            Some(Phase::Subscribing) | Some(Phase::Active) => cmd is None && after.phase_of(key)
                == before.phase_of(key),
            _ => (cmd matches Some(BrokerCommand::Subscribe(k)) && k@ == key) && after.phase_of(key)
                == Some(Phase::Subscribing),
        }
        &&& forall|k: Seq<char>| k != key ==> #[trigger] after.phase_of(k) == before.phase_of(k)
    })
}

} // verus!

//! The broadcast registry: which thread is waiting under which key, and what
//! a wake-up means for a waiting thread.
//!
//! `Broadcast` is the sequential heart of the primitive. It maps a key — a
//! byte sequence — to the set of threads registered under it, and its
//! operations are exactly the steps the concurrent shell takes under its
//! lock: register a waiter, drain a key on notify, and decide after a wake-up
//! whether the wait is over. Its model is a `Map` from key to waiter set, and
//! every operation says precisely how it moves that map.

use crate::waitset::WaiterSet;
use vstd::prelude::*;

verus! {

/// What a waiting thread concludes when its suspension ends.
///
/// The authoritative signal is presence in the registry, not the wake-up
/// itself: only a drained registration — or a predicate that stopped holding —
/// ends the wait, so a spurious wake never does.
#[derive(Clone, Copy, Debug, PartialEq, Eq, Structural)]
pub enum WaitDecision {
    /// The thread's registration was consumed by a notify: stop waiting.
    Notified,
    /// Still registered, but the caller's predicate no longer holds: give up.
    PredicateFailed,
    /// Still registered and the predicate still holds: suspend again.
    KeepWaiting,
}

/// The waiters a key holds in a registry model: its set where the key is
/// present, nobody otherwise.
pub open spec fn waiters_of<H>(m: Map<Seq<u8>, Map<u64, H>>, k: Seq<u8>) -> Map<u64, H> {
    if m.dom().contains(k) {
        m[k]
    } else {
        Map::empty()
    }
}

/// A registry model after thread `tid` registers its wake handle under `k`.
pub open spec fn with_waiter<H>(
    m: Map<Seq<u8>, Map<u64, H>>,
    k: Seq<u8>,
    tid: u64,
    handle: H,
) -> Map<Seq<u8>, Map<u64, H>> {
    m.insert(k, waiters_of(m, k).insert(tid, handle))
}

/// Whether thread `tid` is registered under key `k`.
pub open spec fn is_waiting<H>(m: Map<Seq<u8>, Map<u64, H>>, k: Seq<u8>, tid: u64) -> bool {
    m.dom().contains(k) && m[k].dom().contains(tid)
}

/// The decision a waiting thread reaches after any wake-up, spurious or not:
/// an absent registration was drained by a notify; a present one defers to
/// the caller's predicate.
pub open spec fn decision_of(still_registered: bool, keep_waiting: bool) -> WaitDecision {
    if !still_registered {
        WaitDecision::Notified
    } else if !keep_waiting {
        WaitDecision::PredicateFailed
    } else {
        WaitDecision::KeepWaiting
    }
}

/// The decision step of the wait loop, on the facts a woken thread gathers:
/// whether it is still registered, and whether its predicate asks to go on.
pub fn decide_after_wake(still_registered: bool, keep_waiting: bool) -> (d: WaitDecision)
    ensures
        d == decision_of(still_registered, keep_waiting),
{
    if !still_registered {
        WaitDecision::Notified
    } else if !keep_waiting {
        WaitDecision::PredicateFailed
    } else {
        WaitDecision::KeepWaiting
    }
}

/// One key of the registry and the threads registered under it.
#[derive(Clone)]
struct KeyEntry<H> {
    key: Vec<u8>,
    set: WaiterSet<H>,
}

/// The keyed broadcast registry: every key with at least one registered
/// waiter, each mapped to the set of threads waiting on it.
#[derive(Clone)]
pub struct Broadcast<H> {
    entries: Vec<KeyEntry<H>>,
}

/// The mathematical reading of the registry's entries: a finite map from key
/// to that key's waiter-set map.
closed spec fn registry_map_of<H>(s: Seq<KeyEntry<H>>) -> Map<Seq<u8>, Map<u64, H>> {
    Map::new(
        |k: Seq<u8>| exists|i: int| 0 <= i < s.len() && s[i].key@ == k,
        |k: Seq<u8>| s[choose|i: int| 0 <= i < s.len() && s[i].key@ == k].set@,
    )
}

/// No key occurs under two entries.
spec fn distinct_keys<H>(s: Seq<KeyEntry<H>>) -> bool {
    forall|i: int, j: int| 0 <= i < j < s.len() ==> s[i].key@ != s[j].key@
}

/// Two different entries of a duplicate-free registry carry different keys.
proof fn lemma_distinct_key_pair<H>(s: Seq<KeyEntry<H>>, a: int, b: int)
    requires
        distinct_keys(s),
        0 <= a < s.len(),
        0 <= b < s.len(),
        a != b,
    ensures
        s[a].key@ != s[b].key@,
{
    if a < b {
        assert(s[a].key@ != s[b].key@);
    } else {
        assert(s[b].key@ != s[a].key@);
    }
}

/// An entry of a duplicate-free registry determines membership and the waiter
/// set of its key in the map reading.
proof fn lemma_registry_index<H>(s: Seq<KeyEntry<H>>, i: int)
    requires
        distinct_keys(s),
        0 <= i < s.len(),
    ensures
        registry_map_of(s).dom().contains(s[i].key@),
        registry_map_of(s)[s[i].key@] == s[i].set@,
{
    let k = s[i].key@;
    assert(0 <= i < s.len() && s[i].key@ == k);
    let j = choose|j: int| 0 <= j < s.len() && s[j].key@ == k;
    if i != j {
        lemma_distinct_key_pair(s, i, j);
    }
}

/// A key under no entry is absent from the map reading.
proof fn lemma_registry_absent<H>(s: Seq<KeyEntry<H>>, k: Seq<u8>)
    requires
        forall|i: int| 0 <= i < s.len() ==> s[i].key@ != k,
    ensures
        !registry_map_of(s).dom().contains(k),
{
}

/// Element-wise equality of two byte keys.
fn keys_equal(a: &Vec<u8>, b: &Vec<u8>) -> (r: bool)
    ensures
        r == (a@ == b@),
{
    if a.len() != b.len() {
        return false;
    }
    let n = a.len();
    let mut i: usize = 0;
    while i < n
        invariant
            n == a@.len(),
            n == b@.len(),
            i <= n,
            forall|j: int| 0 <= j < i ==> a@[j] == b@[j],
        decreases n - i,
    {
        if a[i] != b[i] {
            return false;
        }
        i += 1;
    }
    proof {
        assert(a@ =~= b@);
    }
    true
}

/// Removing an entry by swapping the last one into its place drops exactly
/// that entry's key from the map reading and keeps every other entry.
proof fn lemma_swap_remove_registry<H>(s0: Seq<KeyEntry<H>>, s1: Seq<KeyEntry<H>>, gi: int)
    requires
        distinct_keys(s0),
        0 <= gi < s0.len(),
        s1 == s0.update(gi, s0.last()).drop_last(),
    ensures
        distinct_keys(s1),
        forall|j: int|
            #![trigger s1[j]]
            0 <= j < s1.len() ==> s1[j] == s0[crate::waitset::origin(true, gi, s0.len() as int, j)]
                && s1[j].key@ != s0[gi].key@,
        registry_map_of(s1) == registry_map_of(s0).remove(s0[gi].key@),
{
    let olen: int = s0.len() as int;
    let k = s0[gi].key@;
    let m0 = registry_map_of(s0);
    assert forall|j: int| #![trigger s1[j]] 0 <= j < s1.len() implies s1[j] == s0[
        crate::waitset::origin(true, gi, olen, j)] && s1[j].key@ != k by {
        let k0 = crate::waitset::origin(true, gi, olen, j);
        assert(s1[j] == s0[k0]);
        lemma_distinct_key_pair(s0, k0, gi);
    }
    assert forall|a: int, b: int| 0 <= a < b < s1.len() implies s1[a].key@ != s1[b].key@ by {
        let ka = crate::waitset::origin(true, gi, olen, a);
        let kb = crate::waitset::origin(true, gi, olen, b);
        assert(s1[a] == s0[ka] && s1[b] == s0[kb]);
        lemma_distinct_key_pair(s0, ka, kb);
    }
    assert forall|t: Seq<u8>| #![trigger registry_map_of(s1).dom().contains(t)] registry_map_of(
        s1,
    ).dom().contains(t) implies m0.remove(k).dom().contains(t) && registry_map_of(s1)[t]
        == m0.remove(k)[t] by {
        let j = choose|j: int| 0 <= j < s1.len() && s1[j].key@ == t;
        let k0 = crate::waitset::origin(true, gi, olen, j);
        assert(s1[j] == s0[k0]);
        lemma_registry_index(s0, k0);
        lemma_registry_index(s1, j);
    }
    assert forall|t: Seq<u8>| #![trigger m0.remove(k).dom().contains(t)] m0.remove(
        k,
    ).dom().contains(t) implies registry_map_of(s1).dom().contains(t) by {
        let k0 = choose|k0: int| 0 <= k0 < s0.len() && s0[k0].key@ == t;
        lemma_distinct_key_pair(s0, k0, gi);
        let j: int = if k0 == olen - 1 {
            gi
        } else {
            k0
        };
        assert(crate::waitset::origin(true, gi, olen, j) == k0);
        assert(s1[j] == s0[k0]);
        lemma_registry_index(s1, j);
    }
    assert(distinct_keys(s1));
    assert(registry_map_of(s1) =~= m0.remove(k));
}

/// Appending an entry whose key is under no existing entry adds exactly that
/// key to the map reading.
proof fn lemma_push_registry<H>(s1: Seq<KeyEntry<H>>, e: KeyEntry<H>)
    requires
        distinct_keys(s1),
        forall|j: int| 0 <= j < s1.len() ==> s1[j].key@ != e.key@,
    ensures
        distinct_keys(s1.push(e)),
        registry_map_of(s1.push(e)) == registry_map_of(s1).insert(e.key@, e.set@),
{
    let s2 = s1.push(e);
    let m_target = registry_map_of(s1).insert(e.key@, e.set@);
    assert forall|a: int, b: int| 0 <= a < b < s2.len() implies s2[a].key@ != s2[b].key@ by {
        assert(s2[a] == s1[a]);
        if b < s2.len() - 1 {
            assert(s2[b] == s1[b]);
        }
    }
    assert(distinct_keys(s2));
    assert forall|t: Seq<u8>| #![trigger m_target.dom().contains(t)] m_target.dom().contains(t)
        implies registry_map_of(s2).dom().contains(t) && registry_map_of(s2)[t] == m_target[t] by {
        if t == e.key@ {
            lemma_registry_index(s2, s2.len() - 1);
        } else {
            let k0 = choose|k0: int| 0 <= k0 < s1.len() && s1[k0].key@ == t;
            lemma_registry_index(s1, k0);
            assert(s2[k0] == s1[k0]);
            lemma_registry_index(s2, k0);
        }
    }
    assert forall|t: Seq<u8>| #![trigger registry_map_of(s2).dom().contains(t)] registry_map_of(
        s2,
    ).dom().contains(t) implies m_target.dom().contains(t) by {
        if t != e.key@ {
            let j = choose|j: int| 0 <= j < s2.len() && s2[j].key@ == t;
            assert(j != s2.len() - 1);
            assert(s2[j] == s1[j]);
            lemma_registry_index(s1, j);
        }
    }
    assert(registry_map_of(s2) =~= m_target);
}

/// A private copy of a byte key, stored with the entry that registers it.
fn clone_key(key: &Vec<u8>) -> (r: Vec<u8>)
    ensures
        r@ == key@,
{
    let r = key.clone();
    proof {
        assert(r@ =~= key@);
    }
    r
}

impl<H> View for Broadcast<H> {
    type V = Map<Seq<u8>, Map<u64, H>>;

    closed spec fn view(&self) -> Map<Seq<u8>, Map<u64, H>> {
        registry_map_of(self.entries@)
    }
}

impl<H> Broadcast<H> {
    /// Internal shape every reachable registry keeps: one entry per key, each
    /// waiter set well-formed, and no key dangling with nobody under it.
    pub closed spec fn wf(&self) -> bool {
        &&& distinct_keys(self.entries@)
        &&& forall|i: int|
            #![trigger self.entries@[i]]
            0 <= i < self.entries@.len() ==> self.entries@[i].set.wf()
                && self.entries@[i].set@.dom() != Set::<u64>::empty()
    }

    /// A fresh registry with no keys and no waiters.
    pub fn new() -> (r: Self)
        ensures
            r.wf(),
            r@ == Map::<Seq<u8>, Map<u64, H>>::empty(),
    {
        let r = Broadcast { entries: Vec::new() };
        proof {
            assert(r@ =~= Map::<Seq<u8>, Map<u64, H>>::empty());
        }
        r
    }

    /// Where `key` stands among the entries, if anywhere.
    fn index_of(&self, key: &Vec<u8>) -> (r: Option<usize>)
        ensures
            r matches Some(i) ==> i < self.entries@.len() && self.entries@[i as int].key@ == key@,
            r is None ==> forall|j: int| 0 <= j < self.entries@.len() ==> self.entries@[j].key@
                != key@,
    {
        let n = self.entries.len();
        let mut i: usize = 0;
        while i < n
            invariant
                n == self.entries@.len(),
                i <= n,
                forall|j: int| 0 <= j < i ==> self.entries@[j].key@ != key@,
            decreases n - i,
        {
            if keys_equal(&self.entries[i].key, key) {
                return Some(i);
            }
            i += 1;
        }
        None
    }

    /// Whether any thread at all is registered under `key`.
    pub fn has_waiters(&self, key: &Vec<u8>) -> (r: bool)
        requires
            self.wf(),
        ensures
            r == self@.dom().contains(key@),
    {
        match self.index_of(key) {
            Some(i) => {
                proof {
                    lemma_registry_index(self.entries@, i as int);
                }
                true
            }
            None => {
                proof {
                    lemma_registry_absent(self.entries@, key@);
                }
                false
            }
        }
    }

    /// Whether thread `tid` is registered under `key`.
    pub fn is_registered(&self, key: &Vec<u8>, tid: u64) -> (r: bool)
        requires
            self.wf(),
        ensures
            r == is_waiting(self@, key@, tid),
    {
        match self.index_of(key) {
            Some(i) => {
                proof {
                    lemma_registry_index(self.entries@, i as int);
                }
                self.entries[i].set.contains(tid)
            }
            None => {
                proof {
                    lemma_registry_absent(self.entries@, key@);
                }
                false
            }
        }
    }

    /// Records that thread `tid`, wakeable through `handle`, now waits on
    /// `key`. The entry is in place when this returns, so a notify that
    /// completes afterwards cannot miss the thread; a thread already
    /// registered under this key keeps a single entry.
    pub fn register(&mut self, key: &Vec<u8>, tid: u64, handle: H)
        requires
            old(self).wf(),
        ensures
            final(self).wf(),
            final(self)@ == with_waiter(old(self)@, key@, tid, handle),
    {
        let ghost s0 = self.entries@;
        let ghost m0 = registry_map_of(s0);
        match self.index_of(key) {
            Some(i) => {
                let mut e = self.entries.swap_remove(i);
                proof {
                    lemma_registry_index(s0, i as int);
                    lemma_swap_remove_registry(s0, self.entries@, i as int);
                }
                e.set.insert(tid, handle);
                let ghost s1 = self.entries@;
                self.entries.push(e);
                proof {
                    assert forall|j: int| 0 <= j < s1.len() implies s1[j].key@ != key@ by {
                        assert(s1[j].key@ != s0[i as int].key@);
                    }
                    lemma_push_registry(s1, self.entries@.last());
                    assert(self.entries@ =~= s1.push(self.entries@.last()));
                    assert(registry_map_of(self.entries@) == registry_map_of(s1).insert(
                        key@,
                        m0[key@].insert(tid, handle),
                    ));
                    assert(registry_map_of(s1).insert(key@, m0[key@].insert(tid, handle)) =~= with_waiter(
                        m0,
                        key@,
                        tid,
                        handle,
                    ));
                    assert forall|j: int|
                        #![trigger self.entries@[j]]
                        0 <= j < self.entries@.len() implies self.entries@[j].set.wf()
                        && self.entries@[j].set@.dom() != Set::<u64>::empty() by {
                        if j < s1.len() {
                            assert(self.entries@[j] == s1[j]);
                            let k0 = crate::waitset::origin(true, i as int, s0.len() as int, j);
                            assert(s1[j] == s0[k0]);
                            assert(s0[k0].set.wf());
                            assert(s0[k0].set@.dom() != Set::<u64>::empty());
                        } else {
                            assert(self.entries@[j] == self.entries@.last());
                            assert(self.entries@[j].set@.dom().contains(tid));
                        }
                    }
                }
            }
            None => {
                let mut set = WaiterSet::new();
                set.insert(tid, handle);
                let ghost s1 = self.entries@;
                self.entries.push(KeyEntry { key: clone_key(key), set });
                proof {
                    lemma_registry_absent(s0, key@);
                    lemma_push_registry(s1, self.entries@.last());
                    assert(self.entries@ =~= s1.push(self.entries@.last()));
                    assert(registry_map_of(self.entries@) == registry_map_of(s1).insert(
                        key@,
                        Map::<u64, H>::empty().insert(tid, handle),
                    ));
                    assert(registry_map_of(s1).insert(
                        key@,
                        Map::<u64, H>::empty().insert(tid, handle),
                    ) =~= with_waiter(m0, key@, tid, handle));
                    assert forall|j: int|
                        #![trigger self.entries@[j]]
                        0 <= j < self.entries@.len() implies self.entries@[j].set.wf()
                        && self.entries@[j].set@.dom() != Set::<u64>::empty() by {
                        if j < s1.len() {
                            assert(self.entries@[j] == s0[j]);
                            assert(s0[j].set.wf());
                            assert(s0[j].set@.dom() != Set::<u64>::empty());
                        } else {
                            assert(self.entries@[j] == self.entries@.last());
                            assert(self.entries@[j].set@.dom().contains(tid));
                        }
                    }
                }
            }
        }
    }

    /// Atomically drains `key`: its whole waiter set — everybody registered
    /// there at this moment — is removed and handed back, to be woken by the
    /// caller. A key nobody waits on is left untouched and nobody is woken,
    /// so notifying it is a harmless no-op.
    pub fn notify(&mut self, key: &Vec<u8>) -> (woken: WaiterSet<H>)
        requires
            old(self).wf(),
        ensures
            final(self).wf(),
            final(self)@ == old(self)@.remove(key@),
            woken.wf(),
            woken@ == waiters_of(old(self)@, key@),
    {
        let ghost s0 = self.entries@;
        match self.index_of(key) {
            Some(i) => {
                let e = self.entries.swap_remove(i);
                proof {
                    lemma_registry_index(s0, i as int);
                    lemma_swap_remove_registry(s0, self.entries@, i as int);
                    let s1 = self.entries@;
                    assert forall|j: int|
                        #![trigger s1[j]]
                        0 <= j < s1.len() implies s1[j].set.wf() && s1[j].set@.dom()
                            != Set::<u64>::empty() by {
                        let k0 = crate::waitset::origin(true, i as int, s0.len() as int, j);
                        assert(s1[j] == s0[k0]);
                        assert(s0[k0].set.wf());
                        assert(s0[k0].set@.dom() != Set::<u64>::empty());
                    }
                }
                e.set
            }
            None => {
                proof {
                    lemma_registry_absent(s0, key@);
                    assert(registry_map_of(s0).remove(key@) =~= registry_map_of(s0));
                }
                WaiterSet::new()
            }
        }
    }

    /// The registry never holds a dangling key: every key present has at
    /// least one registered waiter under it, because a drained key is removed
    /// whole rather than left behind empty.
    pub proof fn lemma_no_dangling_keys(&self)
        requires
            self.wf(),
        ensures
            forall|k: Seq<u8>| #[trigger] self@.dom().contains(k) ==> self@[k] != Map::<
                u64,
                H,
            >::empty(),
    {
        assert forall|k: Seq<u8>| #[trigger] self@.dom().contains(k) implies self@[k] != Map::<
            u64,
            H,
        >::empty() by {
            let i = choose|i: int| 0 <= i < self.entries@.len() && self.entries@[i].key@ == k;
            lemma_registry_index(self.entries@, i);
            assert(self.entries@[i].set@.dom() != Set::<u64>::empty());
            assert(Map::<u64, H>::empty().dom() =~= Set::<u64>::empty());
        }
    }

    /// The decision a thread waiting on `key` reaches after a wake-up of any
    /// cause, given whether its predicate asks to keep waiting: its wait is
    /// over exactly when its registration is gone or the predicate failed.
    pub fn wait_step(&self, key: &Vec<u8>, tid: u64, keep_waiting: bool) -> (d: WaitDecision)
        requires
            self.wf(),
        ensures
            d == decision_of(is_waiting(self@, key@, tid), keep_waiting),
    {
        let still_registered = self.is_registered(key, tid);
        decide_after_wake(still_registered, keep_waiting)
    }
}

} // verus!

//! The set of threads registered under one key.
//!
//! A waiter set maps a thread identity to the opaque wake handle that can be
//! used to wake that thread. A thread appears at most once per set, so a
//! re-registration replaces the stored handle instead of adding a duplicate.

use vstd::prelude::*;

verus! {

/// One registered waiter: the identity of a blocked thread together with the
/// opaque handle a notifier uses to deliver a wake signal to it.
#[derive(Clone)]
pub struct Waiter<H> {
    pub tid: u64,
    pub handle: H,
}

/// The waiters currently registered under one key, at most one per thread.
#[derive(Clone)]
pub struct WaiterSet<H> {
    entries: Vec<Waiter<H>>,
}

impl<H> Default for WaiterSet<H> {
    /// The same fresh, empty set `new` builds; what a registry's entry point
    /// starts from when a key is first waited on.
    fn default() -> (r: Self)
        ensures
            r.wf(),
            r@ == Map::<u64, H>::empty(),
    {
        WaiterSet::new()
    }
}

/// The mathematical reading of a sequence of waiters: the finite map from
/// thread identity to wake handle.
pub closed spec fn map_of<H>(s: Seq<Waiter<H>>) -> Map<u64, H> {
    Map::new(
        |t: u64| exists|i: int| 0 <= i < s.len() && s[i].tid == t,
        |t: u64| s[choose|i: int| 0 <= i < s.len() && s[i].tid == t].handle,
    )
}

/// No thread occurs twice in the sequence.
pub open spec fn distinct_tids<H>(s: Seq<Waiter<H>>) -> bool {
    forall|i: int, j: int| 0 <= i < j < s.len() ==> s[i].tid != s[j].tid
}

/// Two different positions of a duplicate-free sequence hold different threads.
proof fn lemma_distinct_pair<H>(s: Seq<Waiter<H>>, a: int, b: int)
    requires
        distinct_tids(s),
        0 <= a < s.len(),
        0 <= b < s.len(),
        a != b,
    ensures
        s[a].tid != s[b].tid,
{
    if a < b {
        assert(s[a].tid != s[b].tid);
    } else {
        assert(s[b].tid != s[a].tid);
    }
}

/// An index into a duplicate-free sequence determines membership and the
/// stored handle in its map reading.
proof fn lemma_map_of_index<H>(s: Seq<Waiter<H>>, i: int)
    requires
        distinct_tids(s),
        0 <= i < s.len(),
    ensures
        map_of(s).dom().contains(s[i].tid),
        map_of(s)[s[i].tid] == s[i].handle,
{
    let t = s[i].tid;
    assert(0 <= i < s.len() && s[i].tid == t);
    let j = choose|j: int| 0 <= j < s.len() && s[j].tid == t;
    if i != j {
        lemma_distinct_pair(s, i, j);
    }
}

/// A thread that occurs nowhere in the sequence is absent from its map reading.
proof fn lemma_map_of_absent<H>(s: Seq<Waiter<H>>, t: u64)
    requires
        forall|i: int| 0 <= i < s.len() ==> s[i].tid != t,
    ensures
        !map_of(s).dom().contains(t),
{
}

impl<H> View for WaiterSet<H> {
    type V = Map<u64, H>;

    closed spec fn view(&self) -> Map<u64, H> {
        map_of(self.entries@)
    }
}

impl<H> WaiterSet<H> {
    /// Internal shape every reachable set keeps: one entry per thread.
    pub closed spec fn wf(&self) -> bool {
        distinct_tids(self.entries@)
    }

    /// A fresh set with nobody registered.
    pub fn new() -> (r: Self)
        ensures
            r.wf(),
            r@ == Map::<u64, H>::empty(),
    {
        let r = WaiterSet { entries: Vec::new() };
        proof {
            assert(r@ =~= Map::<u64, H>::empty());
        }
        r
    }

    /// Where `tid` stands in the underlying vector, if anywhere.
    fn index_of(&self, tid: u64) -> (r: Option<usize>)
        ensures
            r matches Some(i) ==> i < self.entries@.len() && self.entries@[i as int].tid == tid,
            r is None ==> forall|j: int| 0 <= j < self.entries@.len() ==> self.entries@[j].tid != tid,
    {
        let n = self.entries.len();
        let mut i: usize = 0;
        while i < n
            invariant
                n == self.entries@.len(),
                i <= n,
                forall|j: int| 0 <= j < i ==> self.entries@[j].tid != tid,
            decreases n - i,
        {
            if self.entries[i].tid == tid {
                return Some(i);
            }
            i += 1;
        }
        None
    }

    /// Whether `tid` is currently registered in this set.
    pub fn contains(&self, tid: u64) -> (r: bool)
        requires
            self.wf(),
        ensures
            r == self@.dom().contains(tid),
    {
        match self.index_of(tid) {
            Some(i) => {
                proof {
                    lemma_map_of_index(self.entries@, i as int);
                }
                true
            }
            None => {
                proof {
                    lemma_map_of_absent(self.entries@, tid);
                }
                false
            }
        }
    }

    /// Registers `tid` with its wake handle; a thread already present has its
    /// handle replaced, never duplicated.
    pub fn insert(&mut self, tid: u64, handle: H)
        requires
            old(self).wf(),
        ensures
            final(self).wf(),
            final(self)@ == old(self)@.insert(tid, handle),
    {
        let ghost s0 = self.entries@;
        let idx = self.index_of(tid);
        let ghost found = idx is Some;
        let ghost gi: int = if idx is Some { idx->Some_0 as int } else { 0 };
        if let Some(i) = idx {
            self.entries.swap_remove(i);
        }
        let ghost s1 = self.entries@;
        self.entries.push(Waiter { tid, handle });
        proof {
            let s2 = self.entries@;
            let olen: int = s0.len() as int;
            let m_target = map_of(s0).insert(tid, handle);
            // every surviving entry is an entry of s0, and none of them is tid's
            assert forall|j: int| #![trigger origin(found, gi, olen, j)] 0 <= j < s1.len() implies s1[j].tid
                != tid && s1[j] == s0[origin(found, gi, olen, j)] by {
                let k0 = origin(found, gi, olen, j);
                assert(s1[j] == s0[k0]);
                if found {
                    lemma_distinct_pair(s0, k0, gi);
                }
            }
            assert forall|a: int, b: int| 0 <= a < b < s2.len() implies s2[a].tid != s2[b].tid by {
                let ka = origin(found, gi, olen, a);
                if b == s2.len() - 1 {
                    assert(s2[a] == s1[a] && s1[a].tid != tid);
                } else {
                    let kb = origin(found, gi, olen, b);
                    assert(s2[a] == s1[a] && s1[a] == s0[ka]);
                    assert(s2[b] == s1[b] && s1[b] == s0[kb]);
                    lemma_distinct_pair(s0, ka, kb);
                }
            }
            assert(distinct_tids(s2));
            assert forall|t: u64| #![trigger m_target.dom().contains(t)] m_target.dom().contains(t)
                implies map_of(s2).dom().contains(t) && map_of(s2)[t] == m_target[t] by {
                if t == tid {
                    lemma_map_of_index(s2, s2.len() - 1);
                } else {
                    let k = choose|k: int| 0 <= k < s0.len() && s0[k].tid == t;
                    lemma_map_of_index(s0, k);
                    let j: int = if found && k == olen - 1 {
                        gi
                    } else {
                        k
                    };
                    if found {
                        lemma_distinct_pair(s0, k, gi);
                    }
                    assert(origin(found, gi, olen, j) == k);
                    assert(s2[j] == s1[j] && s1[j] == s0[k]);
                    lemma_map_of_index(s2, j);
                }
            }
            assert forall|t: u64| #![trigger map_of(s2).dom().contains(t)] map_of(
                s2,
            ).dom().contains(t) implies m_target.dom().contains(t) by {
                if t != tid {
                    let j = choose|j: int| 0 <= j < s2.len() && s2[j].tid == t;
                    assert(j != s2.len() - 1);
                    let k0 = origin(found, gi, olen, j);
                    assert(s1[j] == s0[k0]);
                    lemma_map_of_index(s0, k0);
                }
            }
            assert(map_of(s2) =~= m_target);
        }
    }

    /// The registered waiters, each thread once, in unspecified order. This is
    /// what a notifier walks to deliver one wake signal per waiting thread.
    pub fn waiters(&self) -> (r: &Vec<Waiter<H>>)
        requires
            self.wf(),
        ensures
            forall|i: int|
                0 <= i < r@.len() ==> self@.contains_pair((#[trigger] r@[i]).tid, r@[i].handle),
            forall|i: int, j: int| 0 <= i < j < r@.len() ==> r@[i].tid != r@[j].tid,
            forall|t: u64|
                #[trigger] self@.dom().contains(t) ==> exists|i: int|
                    0 <= i < r@.len() && r@[i].tid == t,
    {
        proof {
            assert forall|i: int| 0 <= i < self.entries@.len() implies self@.contains_pair(
                (#[trigger] self.entries@[i]).tid,
                self.entries@[i].handle,
            ) by {
                lemma_map_of_index(self.entries@, i);
            }
        }
        &self.entries
    }

    /// Whether nobody is registered here.
    pub fn is_empty(&self) -> (r: bool)
        requires
            self.wf(),
        ensures
            r == (self@ == Map::<u64, H>::empty()),
    {
        let r = self.entries.is_empty();
        proof {
            if self.entries@.len() == 0 {
                assert(self@ =~= Map::<u64, H>::empty());
            } else {
                lemma_map_of_index(self.entries@, 0);
            }
        }
        r
    }
}

/// Where a surviving entry stood before an element was removed by swapping the
/// last entry into its place: position `j` afterward held position `j` before,
/// except that the removal site holds what was last.
pub(crate) open spec fn origin(found: bool, removed_at: int, old_len: int, j: int) -> int {
    if found && j == removed_at {
        old_len - 1
    } else {
        j
    }
}

} // verus!

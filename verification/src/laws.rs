//! The guarantees of the primitive, stated once over the registry model and
//! proved, so that every caller of `register`, `notify` and `wait_step` can
//! chain them with those operations' own contracts.

use crate::registry::{decision_of, is_waiting, waiters_of, with_waiter, WaitDecision};
use vstd::prelude::*;

verus! {

/// Notifying a key nobody waits on has no observable effect: it wakes no
/// thread and leaves the registry exactly as it was.
pub proof fn notify_without_waiters_is_noop<H>(m: Map<Seq<u8>, Map<u64, H>>, k: Seq<u8>)
    requires
        !m.dom().contains(k),
    ensures
        waiters_of(m, k) == Map::<u64, H>::empty(),
        m.remove(k) == m,
{
    assert(m.remove(k) =~= m);
}

/// A notify drains its key exactly once: the waiters it hands back are gone
/// from the registry, so a second notify on the same key — with no
/// registration in between — finds the key absent and wakes nobody.
pub proof fn notify_drains_exactly_once<H>(m: Map<Seq<u8>, Map<u64, H>>, k: Seq<u8>)
    ensures
        !m.remove(k).dom().contains(k),
        waiters_of(m.remove(k), k) == Map::<u64, H>::empty(),
{
}

/// Keys are independent: a notify on one key leaves the waiters of every
/// other key exactly as they were.
pub proof fn notify_leaves_other_keys<H>(m: Map<Seq<u8>, Map<u64, H>>, k: Seq<u8>, other: Seq<u8>)
    requires
        k != other,
    ensures
        waiters_of(m.remove(k), other) == waiters_of(m, other),
{
}

/// Keys are independent in the other direction too: a registration under one
/// key changes no other key's waiters.
pub proof fn register_leaves_other_keys<H>(
    m: Map<Seq<u8>, Map<u64, H>>,
    k: Seq<u8>,
    tid: u64,
    handle: H,
    other: Seq<u8>,
)
    requires
        k != other,
    ensures
        waiters_of(with_waiter(m, k, tid, handle), other) == waiters_of(m, other),
{
}

/// A registration is discoverable the moment it is recorded: a notify that
/// runs after it cannot miss the thread. This ordering — registered before
/// ever suspending — is what rules out a lost wake-up.
pub proof fn registration_is_visible<H>(
    m: Map<Seq<u8>, Map<u64, H>>,
    k: Seq<u8>,
    tid: u64,
    handle: H,
)
    ensures
        is_waiting(with_waiter(m, k, tid, handle), k, tid),
        waiters_of(with_waiter(m, k, tid, handle), k)[tid] == handle,
{
}

/// A thread whose key was notified stops waiting at its next check, whatever
/// its predicate says: its registration was drained, and an absent
/// registration is the one authoritative wake signal.
pub proof fn notified_waiter_stops<H>(
    m: Map<Seq<u8>, Map<u64, H>>,
    k: Seq<u8>,
    tid: u64,
    keep_waiting: bool,
)
    ensures
        decision_of(is_waiting(m.remove(k), k, tid), keep_waiting) == WaitDecision::Notified,
{
}

/// A spurious wake-up does not end a wait: as long as the thread's
/// registration is intact and its predicate still asks to wait, the decision
/// after any number of unrelated wake-ups is to suspend again.
pub proof fn spurious_wake_keeps_waiting<H>(m: Map<Seq<u8>, Map<u64, H>>, k: Seq<u8>, tid: u64)
    requires
        is_waiting(m, k, tid),
    ensures
        decision_of(is_waiting(m, k, tid), true) == WaitDecision::KeepWaiting,
{
}

/// Once the predicate stops holding, the very next check ends the wait: no
/// decision keeps a thread suspended against a failed predicate, so the wait
/// returns within one check interval of the predicate's transition.
pub proof fn failed_predicate_stops_waiting(still_registered: bool)
    ensures
        decision_of(still_registered, false) != WaitDecision::KeepWaiting,
{
}

} // verus!

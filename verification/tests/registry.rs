//! The registry model driven through the same steps the concurrent shell
//! takes: register, drain on notify, and decide after a wake-up.

use pubsub_notify::{decide_after_wake, Broadcast, WaitDecision};

fn smoke<T: Clone + Send + Sync>(_: T) {}

fn key(bytes: &[u8]) -> Vec<u8> {
    bytes.to_vec()
}

#[test]
fn generic_key() {
    Broadcast::<u64>::new().notify(&Vec::new());
    Broadcast::<u64>::new().notify(&vec![123]);
    Broadcast::<u64>::new().notify(&key(b"hello"));
}

#[test]
fn implements_traits() {
    smoke(Broadcast::<()>::new());
}

#[test]
fn notify_without_waiters_has_no_effect() {
    let mut b: Broadcast<u64> = Broadcast::new();
    b.register(&key(b"job"), 1, 10);

    let woken = b.notify(&key(b"other"));
    assert!(woken.is_empty());
    assert!(woken.waiters().is_empty());

    // the key nobody waited on is still absent, the waited-on key untouched
    assert!(!b.has_waiters(&key(b"other")));
    assert!(b.has_waiters(&key(b"job")));
    assert!(b.is_registered(&key(b"job"), 1));
}

#[test]
fn notify_wakes_exactly_the_registered_waiter() {
    let mut b: Broadcast<u64> = Broadcast::new();
    b.register(&key(b"job"), 7, 70);

    let woken = b.notify(&key(b"job"));
    let waiters = woken.waiters();
    assert_eq!(waiters.len(), 1);
    assert_eq!(waiters[0].tid, 7);
    assert_eq!(waiters[0].handle, 70);

    // the registration was consumed
    assert!(!b.has_waiters(&key(b"job")));
    assert!(!b.is_registered(&key(b"job"), 7));
}

#[test]
fn second_notify_wakes_nobody() {
    let mut b: Broadcast<u64> = Broadcast::new();
    b.register(&key(b"job"), 7, 70);

    let first = b.notify(&key(b"job"));
    let second = b.notify(&key(b"job"));
    assert_eq!(first.waiters().len(), 1);
    assert!(second.is_empty());
}

#[test]
fn notify_wakes_every_waiter_of_the_key() {
    let mut b: Broadcast<u64> = Broadcast::new();
    b.register(&key(b"job"), 1, 10);
    b.register(&key(b"job"), 2, 20);

    let woken = b.notify(&key(b"job"));
    let mut waiters: Vec<(u64, u64)> =
        woken.waiters().iter().map(|w| (w.tid, w.handle)).collect();
    waiters.sort();
    assert_eq!(waiters, vec![(1, 10), (2, 20)]);
}

#[test]
fn reregistration_replaces_the_handle() {
    let mut b: Broadcast<u64> = Broadcast::new();
    b.register(&key(b"job"), 1, 10);
    b.register(&key(b"job"), 1, 11);

    let woken = b.notify(&key(b"job"));
    let waiters = woken.waiters();
    assert_eq!(waiters.len(), 1);
    assert_eq!(waiters[0].tid, 1);
    assert_eq!(waiters[0].handle, 11);
}

#[test]
fn spurious_wake_keeps_the_thread_waiting() {
    let mut b: Broadcast<u64> = Broadcast::new();
    b.register(&key(b"job"), 1, 10);

    // however often the thread is woken without cause, while its entry is
    // present and the predicate holds it goes back to sleep
    for _ in 0..3 {
        assert_eq!(b.wait_step(&key(b"job"), 1, true), WaitDecision::KeepWaiting);
    }

    b.notify(&key(b"job"));
    assert_eq!(b.wait_step(&key(b"job"), 1, true), WaitDecision::Notified);
}

#[test]
fn failed_predicate_ends_the_wait() {
    let mut b: Broadcast<u64> = Broadcast::new();
    b.register(&key(b"job"), 1, 10);

    assert_eq!(b.wait_step(&key(b"job"), 1, false), WaitDecision::PredicateFailed);

    // the predicate path leaves the stale entry behind; only a notify or a
    // fresh registration touches it
    assert!(b.is_registered(&key(b"job"), 1));
}

#[test]
fn unrelated_thread_counts_as_notified() {
    let mut b: Broadcast<u64> = Broadcast::new();
    b.register(&key(b"job"), 1, 10);

    // a thread whose entry is not in the set was already drained
    assert_eq!(b.wait_step(&key(b"job"), 2, true), WaitDecision::Notified);
}

#[test]
fn three_keys_notified_in_sequence() {
    let mut b: Broadcast<u64> = Broadcast::new();
    b.register(&vec![1], 1, 10);
    b.register(&vec![2], 2, 20);
    b.register(&vec![3], 3, 30);

    let woken = b.notify(&vec![1]);
    assert_eq!(woken.waiters().len(), 1);
    assert_eq!(woken.waiters()[0].tid, 1);
    assert_eq!(b.wait_step(&vec![1], 1, true), WaitDecision::Notified);
    assert_eq!(b.wait_step(&vec![2], 2, true), WaitDecision::KeepWaiting);
    assert_eq!(b.wait_step(&vec![3], 3, true), WaitDecision::KeepWaiting);

    let woken = b.notify(&vec![2]);
    assert_eq!(woken.waiters().len(), 1);
    assert_eq!(woken.waiters()[0].tid, 2);
    assert_eq!(b.wait_step(&vec![3], 3, true), WaitDecision::KeepWaiting);

    let woken = b.notify(&vec![3]);
    assert_eq!(woken.waiters().len(), 1);
    assert_eq!(woken.waiters()[0].tid, 3);
    assert!(!b.has_waiters(&vec![1]));
    assert!(!b.has_waiters(&vec![2]));
    assert!(!b.has_waiters(&vec![3]));
}

#[test]
fn empty_key_is_a_key_like_any_other() {
    let mut b: Broadcast<u64> = Broadcast::new();
    b.register(&Vec::new(), 1, 10);
    b.register(&key(b"x"), 2, 20);

    let woken = b.notify(&Vec::new());
    assert_eq!(woken.waiters().len(), 1);
    assert_eq!(woken.waiters()[0].tid, 1);
    assert!(b.is_registered(&key(b"x"), 2));
}

#[test]
fn decision_table() {
    assert_eq!(decide_after_wake(false, false), WaitDecision::Notified);
    assert_eq!(decide_after_wake(false, true), WaitDecision::Notified);
    assert_eq!(decide_after_wake(true, false), WaitDecision::PredicateFailed);
    assert_eq!(decide_after_wake(true, true), WaitDecision::KeepWaiting);
}

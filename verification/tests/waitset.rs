//! The per-key waiter set on its own.

use pubsub_notify::WaiterSet;

#[test]
fn fresh_set_is_empty() {
    let s: WaiterSet<u64> = WaiterSet::new();
    assert!(s.is_empty());
    assert!(!s.contains(1));
    assert!(s.waiters().is_empty());
}

#[test]
fn default_is_the_empty_set() {
    let s: WaiterSet<u64> = WaiterSet::default();
    assert!(s.is_empty());
}

#[test]
fn insert_registers_the_thread_once() {
    let mut s: WaiterSet<u64> = WaiterSet::new();
    s.insert(1, 10);
    s.insert(2, 20);
    s.insert(1, 11);

    assert!(s.contains(1));
    assert!(s.contains(2));
    assert!(!s.contains(3));

    let mut waiters: Vec<(u64, u64)> = s.waiters().iter().map(|w| (w.tid, w.handle)).collect();
    waiters.sort();
    assert_eq!(waiters, vec![(1, 11), (2, 20)]);
}

#[test]
fn clone_keeps_the_waiters() {
    let mut s: WaiterSet<u64> = WaiterSet::new();
    s.insert(5, 50);
    let copy = s.clone();
    assert!(copy.contains(5));
    assert_eq!(copy.waiters().len(), 1);
}

//! A keyed broadcast wait/notify primitive, verified at its core.
//!
//! Any number of threads may block on an arbitrary key; notifying that key
//! wakes every thread registered under it. The registry bookkeeping — who is
//! registered under which key, what a notify drains, and when a woken thread
//! may stop waiting — is ordinary data-structure logic and is verified here.
//! The thread-parking shell that drives it lives outside the library.

pub mod laws;
pub mod registry;
pub mod waitset;

pub use registry::{decide_after_wake, Broadcast, WaitDecision};
pub use waitset::{Waiter, WaiterSet};

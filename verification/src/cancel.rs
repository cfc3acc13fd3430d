//! The shared cancellation flag: an atomic boolean set by a timer and
//! polled cooperatively by every search.
//!
//! Nothing is promised of what a poll returns: the flag is shared with
//! other threads, so every caller must be correct whatever comes back.

use vstd::prelude::*;
use std::sync::atomic::AtomicBool;
use std::sync::atomic::Ordering;

verus! {

/// A cancellation flag, safe to share across threads.
pub struct CancelFlag {
    pub inner: AtomicBool,
}

impl CancelFlag {
    /// Relies on std::sync::atomic::AtomicBool::new: a fresh flag.
    #[verifier::external_body]
    pub fn new() -> CancelFlag {
        CancelFlag { inner: AtomicBool::new(false) }
    }

    /// Relies on std::sync::atomic::AtomicBool::store with release
    /// ordering: raises the flag.
    #[verifier::external_body]
    pub fn set(&self) {
        self.inner.store(true, Ordering::Release);
    }

    /// Relies on std::sync::atomic::AtomicBool::load with acquire
    /// ordering.  The result depends on what other threads have done, so
    /// nothing is promised of it.
    #[verifier::external_body]
    pub fn is_set(&self) -> bool {
        self.inner.load(Ordering::Acquire)
    }
}

} // verus!

//! Cooperative cancellation.
//!
//! One side flips a flag, the other polls it at a known cadence and unwinds. The
//! flag is shared between threads and can change between any two steps of either,
//! so nothing is said here of what a poll returns.

use std::sync::atomic::{AtomicBool, Ordering};
use std::sync::Arc;
use vstd::prelude::*;

verus! {

/// `Arc::clone`: another handle to the same value.
#[verifier::external_body]
fn share(flag: &Arc<AtomicBool>) -> (r: Arc<AtomicBool>)
    ensures
        *r == **flag,
{
    Arc::clone(flag)
}

/// A shared "stop what you are doing" flag. Setting it through one handle is
/// visible through every other.
#[derive(Debug)]
pub struct CancelToken {
    flag: Arc<AtomicBool>,
}

impl CancelToken {
    /// The flag itself, which all handles share.
    pub closed spec fn shared(self) -> AtomicBool {
        *self.flag
    }

    pub fn new() -> CancelToken {
        CancelToken { flag: Arc::new(AtomicBool::new(false)) }
    }

    /// Ask the holder to stop. Safe from any thread, any number of times.
    pub fn cancel(&self) {
        self.flag.store(true, Ordering::Relaxed);
    }

    /// Has cancellation been requested?
    pub fn is_cancelled(&self) -> bool {
        self.flag.load(Ordering::Relaxed)
    }

    /// A closure that polls the flag.
    pub fn checker(&self) -> (f: impl Fn() -> bool)
        ensures
            f.requires(()),
    {
        let flag = share(&self.flag);
        move || flag.load(Ordering::Relaxed)
    }

    /// Clear the flag so the token can be reused for the next operation.
    pub fn reset(&self) {
        self.flag.store(false, Ordering::Relaxed);
    }
}

impl Clone for CancelToken {
    fn clone(&self) -> (t: CancelToken)
        ensures
            t.shared() == self.shared(),
    {
        CancelToken { flag: share(&self.flag) }
    }
}

impl Default for CancelToken {
    fn default() -> (t: CancelToken) {
        CancelToken::new()
    }
}

} // verus!

//! The flag by which a caller asks a running computation to stop.
use vstd::prelude::*;
use std::sync::atomic::{AtomicBool, Ordering};

verus! {

/// Reads the flag. Any thread may set it at any time, so nothing is known of the answer.
pub fn is_set(flag: &AtomicBool) -> bool {
    flag.load(Ordering::Relaxed)
}

/// Sets the flag.
pub fn raise(flag: &AtomicBool) {
    flag.store(true, Ordering::SeqCst)
}

} // verus!

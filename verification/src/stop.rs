//! The flag by which another thread asks a search to stop.
use vstd::prelude::*;

verus! {

/// Has a stop been requested? Reads the flag with `AtomicBool::load` (relaxed
/// order); nothing is promised of the value, which another thread may set at
/// any time.
#[verifier::external_body]
pub(crate) fn stop_requested(flag: &std::sync::atomic::AtomicBool) -> bool {
    flag.load(std::sync::atomic::Ordering::Relaxed)
}

} // verus!

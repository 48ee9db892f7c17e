//! Wall-clock access. Every time-dependent decision in the crate is made by
//! a verified function that takes an explicit timestamp; this module only
//! produces such timestamps.

use vstd::prelude::*;

verus! {

/// Relies on std::time::SystemTime::now for the wall clock; returns
/// milliseconds since the Unix epoch, or 0 if the clock reads earlier than
/// the epoch. Nothing is assumed of the value.
#[verifier::external_body]
pub fn now_millis() -> u64 {
    std::time::SystemTime::now()
        .duration_since(std::time::UNIX_EPOCH)
        .map(|d| d.as_millis() as u64)
        .unwrap_or(0)
}

/// Whole seconds since the Unix epoch, derived from [`now_millis`].
pub fn now_secs() -> u64 {
    now_millis() / 1000
}

} // verus!

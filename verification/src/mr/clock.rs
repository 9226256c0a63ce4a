//! The monotonic clock that leases are measured with.

use vstd::prelude::*;

verus! {

/// `tokio::time::Instant`, carried through as an opaque value.
#[verifier::external_type_specification]
#[verifier::external_body]
pub struct ExInstant(tokio::time::Instant);

/// Calls `tokio::time::Instant::now`. Nothing is claimed of the instant
/// that comes back.
#[verifier::external_body]
pub(crate) fn start() -> tokio::time::Instant {
    tokio::time::Instant::now()
}

/// Calls `tokio::time::Instant::elapsed` and hands back the whole
/// milliseconds of that duration. The value depends on when the call is
/// made, so nothing is claimed of it.
#[verifier::external_body]
pub(crate) fn elapsed_millis(origin: &tokio::time::Instant) -> u64 {
    origin.elapsed().as_millis() as u64
}

} // verus!

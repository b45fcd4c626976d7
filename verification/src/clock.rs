//! Wall-clock time.
use vstd::prelude::*;

verus! {

/// Milliseconds since the Unix epoch (`SystemTime::now`), 0 before the epoch.
/// Nothing is stated of the value: it is the time of the call.
#[verifier::external_body]
pub fn unix_ms() -> (r: u128) {
    std::time::SystemTime::now()
        .duration_since(std::time::UNIX_EPOCH)
        .map(|d| d.as_millis())
        .unwrap_or(0)
}

} // verus!

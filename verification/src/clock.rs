//! The system clock, the one reading of time that the library makes.
use vstd::prelude::*;

verus! {

/// Reads the clock through `std::time::SystemTime::now`, as whole
/// milliseconds since the Unix epoch (0 when the clock reads before the
/// epoch). Nothing is claimed of the value: it depends on when it is read.
#[verifier::external_body]
pub(crate) fn now_millis() -> (r: u64) {
    std::time::SystemTime::now().duration_since(std::time::UNIX_EPOCH).map(|d| d.as_millis()).unwrap_or_default() as u64
}

} // verus!

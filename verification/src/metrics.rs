//! Metrics of the broker. The counters and gauges themselves are kept by
//! the application's metrics registry; they are cumulative.
use vstd::prelude::*;

verus! {

/// Resets the metrics. Counters are cumulative for the life of the
/// process, so nothing is reset and nothing changes.
pub fn reset_metrics() {
}

} // verus!

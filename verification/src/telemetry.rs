//! Decision rule of the background memory sampler.
//!
//! The sampler polls used and total memory and warns once when usage
//! crosses the high-water mark of ninety percent. Only the decision lives
//! here; the polling loop performs the measurement and the logging.

use vstd::prelude::*;

verus! {

/// Whether a warning is due: none has been issued yet and used memory
/// exceeds ninety percent of total memory.
pub fn memory_warning_due(used: u64, total: u64, warning_issued: bool) -> (r: bool)
    ensures
        r == (!warning_issued && (used as int) * 10 > (total as int) * 9),
{
    !warning_issued && (used as u128) * 10 > (total as u128) * 9
}

} // verus!

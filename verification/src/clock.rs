//! Wall-clock time.

use vstd::prelude::*;

verus! {

/// `SystemTime::now`, as whole seconds since the Unix epoch (zero for a
/// clock set before it). Nothing is claimed of the value: every caller
/// states what holds whatever the clock says.
#[verifier::external_body]
pub(crate) fn current_timestamp() -> u64 {
    std::time::SystemTime::now().duration_since(std::time::UNIX_EPOCH).unwrap_or_default().as_secs()
}

} // verus!

//! Wall-clock times carried by orders.

use vstd::prelude::*;
use std::time::SystemTime;

verus! {

#[verifier::external_type_specification]
#[verifier::external_body]
pub struct ExSystemTime(SystemTime);

/// The current time of the system clock, read with `std::time::SystemTime::now`.
///
/// Nothing is promised of the value: it is whatever the system clock reads.
#[verifier::external_body]
pub(crate) fn system_now() -> (t: SystemTime) {
    SystemTime::now()
}

} // verus!

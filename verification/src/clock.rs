//! Reading the wall clock, for bots that search until their time is up.

use vstd::prelude::*;

use std::time::{Duration, Instant};

verus! {

#[verifier::external_type_specification]
#[verifier::external_body]
pub struct ExInstant(std::time::Instant);

/// `std::time::Instant::now`: the current time. What it returns depends on
/// the clock, so nothing is stated of it.
#[verifier::external_body]
pub(crate) fn now() -> (r: Instant) {
    Instant::now()
}

/// `std::time::Instant::elapsed`: the time since `start`. It depends on the
/// clock, so nothing is stated of it.
#[verifier::external_body]
pub(crate) fn elapsed(start: &Instant) -> (r: Duration) {
    start.elapsed()
}

/// `std::time::Duration::as_millis`: the whole milliseconds of `d`. A
/// `Duration` is opaque here, so nothing is stated of the result.
#[verifier::external_body]
pub(crate) fn as_millis(d: &Duration) -> (r: u128) {
    d.as_millis()
}

/// Less than `budget_ms` milliseconds have passed since `start`. How many
/// have passed is read from the clock, so only a budget of nothing is
/// answered for certain: it is always spent.
pub fn within_budget(start: &Instant, budget_ms: u128) -> (r: bool)
    ensures
        budget_ms == 0 ==> !r,
{
    let spent = elapsed(start);
    as_millis(&spent) < budget_ms
}

} // verus!

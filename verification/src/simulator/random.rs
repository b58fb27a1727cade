//! What the generator takes from outside: random numbers, fresh identifiers
//! and the time of day.

use rand::Rng;
use vstd::prelude::*;

verus! {

/// `rand::Rng::gen_range` on the thread's generator: some number of the
/// half-open range from `low` to `high`. Nothing else is known of it.
#[verifier::external_body]
pub(crate) fn random_in(low: u64, high: u64) -> (n: u64)
    requires
        low < high,
    ensures
        low <= n < high,
{
    rand::thread_rng().gen_range(low..high)
}

/// `uuid::Uuid::new_v4` as a number: a random identifier, made from the
/// system's source of randomness. Nothing is known of it.
#[verifier::external_body]
pub(crate) fn fresh_id() -> u128 {
    uuid::Uuid::new_v4().as_u128()
}

/// `chrono::Utc::now` in microseconds since the Unix epoch, as the system
/// clock has it; the clock is taken to be past the epoch. Nothing is known
/// of the result.
#[verifier::external_body]
pub(crate) fn now_micros() -> i64 {
    chrono::Utc::now().timestamp_micros()
}

} // verus!

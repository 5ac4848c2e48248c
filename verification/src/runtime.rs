//! The two effects the protocol core needs from its environment: fresh
//! randomness for session ids and room seeds, and the wall clock for message
//! timestamps. Both are behind trusted wrappers; everything derived from
//! their results is verified for every value they could return.

use vstd::prelude::*;

verus! {

/// Relies on rand::random: returns a fresh random value; nothing can be
/// promised of it.
#[verifier::external_body]
pub fn random_u64() -> u64 {
    rand::random::<u64>()
}

/// Relies on std::time::SystemTime::now and
/// SystemTime::duration_since(UNIX_EPOCH): milliseconds since the epoch, or 0
/// if the clock reads before the epoch. Nothing can be promised of the
/// clock's value.
#[verifier::external_body]
pub fn timestamp() -> u128 {
    std::time::SystemTime::now()
        .duration_since(std::time::SystemTime::UNIX_EPOCH)
        .map(|d| d.as_millis())
        .unwrap_or(0)
}

/// The next timestamp a room may use: strictly after `last`, and no earlier
/// than the wall clock.
pub fn timestamp_after(last: u128) -> (r: u128)
    requires
        last < u128::MAX,
    ensures
        r > last,
{
    let now = timestamp();
    if now > last {
        now
    } else {
        last + 1
    }
}

} // verus!

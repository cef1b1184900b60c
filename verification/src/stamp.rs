//! The identifier and the time that a new vector is stamped with.

use vstd::prelude::*;

verus! {

/// The identifier of a vector: a 128-bit UUID, the first byte most significant.
#[derive(Clone, Copy, Debug, PartialEq, Eq, Structural, Hash)]
pub struct VectorId {
    pub bits: u128,
}

/// Whether `bits` has the form of a random UUID: version 4, of the RFC 9562 variant.
pub open spec fn is_random_uuid(bits: u128) -> bool {
    &&& (bits / 0x1000_0000_0000_0000_0000) % 16 == 4
    &&& (bits / 0x4000_0000_0000_0000) % 4 == 2
}

/// A random UUID from `uuid::Uuid::new_v4`, as the integer that `uuid::Uuid::as_u128` makes of
/// it. Trusted: the version digit is 4 and the variant bits are 1 and 0. The other bits come
/// from the operating system's random number generator and nothing is claimed of them; the call
/// panics if that generator fails.
#[verifier::external_body]
fn random_uuid() -> (bits: u128)
    ensures
        is_random_uuid(bits),
{
    uuid::Uuid::new_v4().as_u128()
}

impl VectorId {
    /// A new random identifier.
    pub fn new_v4() -> (id: Self)
        ensures
            is_random_uuid(id.bits),
    {
        VectorId { bits: random_uuid() }
    }
}

/// The whole seconds since the Unix epoch on the system clock, or `None` if the clock stands
/// before it: `std::time::SystemTime::elapsed` on the epoch. Nothing is claimed of the result,
/// which depends on the clock alone.
#[verifier::external_body]
fn clock_seconds() -> (seconds: Option<u64>) {
    std::time::UNIX_EPOCH.elapsed().ok().map(|since| since.as_secs())
}

/// The timestamp for a reading of the clock; a clock before the epoch counts as the epoch.
pub fn timestamp_from(seconds: Option<u64>) -> (timestamp: u64)
    ensures
        timestamp == match seconds {
            Some(s) => s,
            None => 0,
        },
{
    match seconds {
        Some(s) => s,
        None => 0,
    }
}

/// The current time as a timestamp. The clock alone decides it, so nothing is claimed of it.
pub(crate) fn now() -> u64 {
    timestamp_from(clock_seconds())
}

} // verus!

//! Random numbers, drawn from the `rand` crate's thread-local generator.

use vstd::prelude::*;
use rand::Rng;

verus! {

/// Whether `b` is an ASCII letter or digit.
pub open spec fn is_alphanumeric(b: u8) -> bool {
    (48 <= b <= 57) || (65 <= b <= 90) || (97 <= b <= 122)
}

/// `rand::thread_rng().gen::<i32>()`: any 32-bit number.
#[verifier::external_body]
pub(crate) fn random_i32() -> i32 {
    rand::thread_rng().gen::<i32>()
}

/// `rand::thread_rng().gen::<u32>()`: any 32-bit number.
#[verifier::external_body]
pub(crate) fn random_u32() -> u32 {
    rand::thread_rng().gen::<u32>()
}

/// `rand::thread_rng().sample(Alphanumeric)`: an ASCII letter or digit.
#[verifier::external_body]
pub(crate) fn random_alphanumeric() -> (b: u8)
    ensures
        is_alphanumeric(b),
{
    rand::thread_rng().sample(rand::distributions::Alphanumeric)
}

} // verus!

//! Random values.

use vstd::prelude::*;

verus! {

/// `Rng::random_range` on the thread's generator: some number of the range. It
/// panics on an empty range.
#[verifier::external_body]
pub(crate) fn random_range(from: usize, to: usize) -> (r: usize)
    requires
        from < to,
    ensures
        from <= r < to,
{
    rand::Rng::random_range(&mut rand::rng(), from..to)
}

/// `Rng::fill` on the thread's generator: as many bytes as asked for, of any
/// value. No vector has more than `isize::MAX` bytes.
#[verifier::external_body]
pub(crate) fn random_bytes(n: usize) -> (r: Vec<u8>)
    requires
        n <= isize::MAX,
    ensures
        r@.len() == n,
{
    let mut bytes = vec![0u8; n];
    rand::Rng::fill(&mut rand::rng(), bytes.as_mut_slice());
    bytes
}

/// `rand::random`: any 16-bit number.
#[verifier::external_body]
pub(crate) fn random_u16() -> u16 {
    rand::random::<u16>()
}

/// `rand::random`: any 32-bit number.
#[verifier::external_body]
pub(crate) fn random_u32() -> u32 {
    rand::random::<u32>()
}

} // verus!

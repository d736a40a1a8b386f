use vstd::prelude::*;

verus! {

/// fastrand's generator type, declared so that boards and players can be
/// handed one; nothing about its state is assumed.
#[verifier::external_type_specification]
#[verifier::external_body]
pub struct ExRng(fastrand::Rng);

/// Relies on fastrand::Rng::new: a fresh generator seeded from the
/// thread-local one.
#[verifier::external_body]
pub(crate) fn rng_new() -> fastrand::Rng {
    fastrand::Rng::new()
}

/// Relies on fastrand::Rng::usize over the range 0..n: a draw below n.
/// It panics only on an empty range, which `n > 0` rules out.
#[verifier::external_body]
pub(crate) fn rng_usize_below(rng: &mut fastrand::Rng, n: usize) -> (r: usize)
    requires
        n > 0,
    ensures
        r < n,
{
    rng.usize(0..n)
}

/// Relies on fastrand::Rng::u8 over the range 0..n: a draw below n.
/// It panics only on an empty range, which `n > 0` rules out.
#[verifier::external_body]
pub(crate) fn rng_u8_below(rng: &mut fastrand::Rng, n: u8) -> (r: u8)
    requires
        n > 0,
    ensures
        r < n,
{
    rng.u8(0..n)
}

/// Relies on fastrand::Rng::u32 over the range 0..n: a draw below n.
/// It panics only on an empty range, which `n > 0` rules out.
#[verifier::external_body]
pub(crate) fn rng_u32_below(rng: &mut fastrand::Rng, n: u32) -> (r: u32)
    requires
        n > 0,
    ensures
        r < n,
{
    rng.u32(0..n)
}

} // verus!

use vstd::prelude::*;

verus! {

/// The least number that `random_number` draws.
pub const DRAW_LOW: u32 = 1;

/// The greatest number that `random_number` draws.
pub const DRAW_HIGH: u32 = 100;

/// Relies on `rand::Rng::gen_range` on `rand::thread_rng()`: for an inclusive
/// range `lo..=hi` with `lo <= hi` it returns a value inside the range. It
/// panics only on an empty range, which `requires` rules out.
#[verifier::external_body]
fn random_in(lo: u32, hi: u32) -> (r: u32)
    requires
        lo <= hi,
    ensures
        lo <= r <= hi,
{
    rand::Rng::gen_range(&mut rand::thread_rng(), lo..=hi)
}

/// Draws a random number between `DRAW_LOW` and `DRAW_HIGH`, both included.
pub fn random_number() -> (r: u32)
    ensures
        DRAW_LOW <= r <= DRAW_HIGH,
{
    random_in(DRAW_LOW, DRAW_HIGH)
}

} // verus!

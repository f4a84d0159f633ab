use vstd::prelude::*;

verus! {

/// Relies on `rand::rng` and `rand::RngExt::random_range`: a uniform draw
/// from the range `0..max`, which is nonempty because `max > 0`, so the
/// result is always below `max`. Nothing more is assumed of the draw.
#[verifier::external_body]
pub(crate) fn rng(max: usize) -> (r: usize)
    requires
        max > 0,
    ensures
        r < max,
{
    rand::RngExt::random_range(&mut rand::rng(), 0..max)
}

} // verus!

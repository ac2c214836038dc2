//! Drawing numbers.

use rand::Rng;
use vstd::prelude::*;

verus! {

/// `Rng::gen_range` of `rand`, on the range `0..count`: a number of that
/// range, which one is not known. It panics on an empty range, so `count`
/// is not zero.
#[verifier::external_body]
pub(crate) fn gen_below<R: Rng>(rng: &mut R, count: usize) -> (r: usize)
    requires
        count > 0,
    ensures
        r < count,
{
    rng.gen_range(0..count)
}

} // verus!

use vstd::prelude::*;

use rand::Rng;

verus! {

/// Relies on `rand::thread_rng` and `rand::Rng::gen_range`: a number drawn
/// from `0..bound` lies below `bound`; the call panics only on an empty range.
#[verifier::external_body]
pub(crate) fn draw_below(bound: usize) -> (r: usize)
    requires
        bound > 0,
    ensures
        r < bound,
{
    rand::thread_rng().gen_range(0..bound)
}

} // verus!

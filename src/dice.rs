use rand::Rng;
use vstd::prelude::*;

verus! {

/// Relies on `rand::thread_rng` and `Rng::gen_range` over the inclusive range
/// `1..=6`: the value drawn lies in that range (the range is not empty, so
/// `gen_range` does not panic).
#[verifier::external_body]
pub(crate) fn roll() -> (r: usize)
    ensures
        1 <= r <= 6,
{
    rand::thread_rng().gen_range(1..=6)
}

} // verus!

use vstd::prelude::*;

verus! {

/// Relies on rand: `thread_rng().gen_range(start..end)` returns a uniformly
/// distributed value of the half-open range, and panics only when the range
/// is empty. Nothing is assumed beyond the bounds: the result depends on the
/// generator's state, so every caller must cope with any value in range.
#[verifier::external_body]
pub fn random_int(start: usize, end: usize) -> (r: usize)
    requires
        start < end,
    ensures
        start <= r < end,
{
    let mut rng = rand::thread_rng();
    rand::Rng::gen_range(&mut rng, start..end)
}

} // verus!

use vstd::prelude::*;

verus! {

/// Relies on `fastrand::u32` over the inclusive range `0..=n`: a uniform draw
/// that lies in the range and never panics, since the range is never empty.
#[verifier::external_body]
pub(crate) fn random_at_most(n: u32) -> (r: u32)
    ensures
        r <= n,
{
    fastrand::u32(0..=n)
}

/// Relies on `fastrand::choice` over `0..len`: `None` exactly when `len` is
/// zero, otherwise a uniformly drawn index below `len`.
#[verifier::external_body]
pub(crate) fn random_index(len: usize) -> (r: Option<usize>)
    ensures
        r.is_none() <==> len == 0,
        r matches Some(i) ==> i < len,
{
    fastrand::choice(0..len)
}

/// Picks one element of `values` uniformly at random, or `None` when there is none.
pub fn pick_random<T>(values: &Vec<T>) -> (r: Option<&T>)
    ensures
        r.is_none() <==> values@.len() == 0,
        r matches Some(x) ==> values@.contains(*x),
{
    match random_index(values.len()) {
        Some(i) => Some(&values[i]),
        None => None,
    }
}

} // verus!

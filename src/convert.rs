use vstd::prelude::*;

verus! {

/// Relies on `num_traits::FromPrimitive::from_usize` for `i64`: it returns the
/// same number when it lies in `i64`'s range, and `None` otherwise.
#[verifier::external_body]
pub(crate) fn count_to_i64(n: usize) -> (r: Option<i64>)
    ensures
        n <= i64::MAX ==> r == Some(n as i64),
        n > i64::MAX ==> r is None,
{
    <i64 as num_traits::FromPrimitive>::from_usize(n)
}

/// Relies on `num_traits::ToPrimitive::to_usize` for `i128`: it returns the
/// same number when it is neither negative nor above `usize::MAX`, and `None`
/// otherwise.
#[verifier::external_body]
pub(crate) fn wide_to_usize(v: i128) -> (r: Option<usize>)
    ensures
        0 <= v <= usize::MAX ==> r == Some(v as usize),
        (v < 0 || v > usize::MAX) ==> r is None,
{
    num_traits::ToPrimitive::to_usize(&v)
}

} // verus!

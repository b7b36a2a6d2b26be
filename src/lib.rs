use vstd::prelude::*;

pub mod convert;
pub mod constant_sequences;
pub mod grid;
pub mod range;
pub mod sequences;

verus! {

/// The unit success value, for callers that finish with `Ok(())`.
pub fn ok<E>() -> (r: Result<(), E>)
    ensures
        r is Ok,
{
    Ok(())
}

} // verus!

//! The capacity of a vector, which the allocator decides.

use vstd::prelude::*;

verus! {

/// `Vec::capacity`: the number of elements that the vector can hold without
/// allocating again. The allocator chooses it; all that is known is that the
/// elements the vector holds fit in it.
#[verifier::external_body]
pub(crate) fn vec_capacity<T>(v: &Vec<T>) -> (c: usize)
    ensures
        c >= v@.len(),
{
    v.capacity()
}

} // verus!

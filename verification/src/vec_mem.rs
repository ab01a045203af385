//! Capacity queries and trimming on vectors, for the memory reports of the maps.
use vstd::prelude::*;

verus! {

/// `Vec::capacity`: what the allocator gave, at least the length.
#[verifier::external_body]
pub fn vec_capacity<T>(v: &Vec<T>) -> (r: usize)
    ensures
        r >= v@.len(),
{
    v.capacity()
}

/// `Vec::shrink_to_fit`: frees spare capacity, keeps the contents.
#[verifier::external_body]
pub fn vec_shrink_to_fit<T>(v: &mut Vec<T>)
    ensures
        final(v)@ == old(v)@,
{
    v.shrink_to_fit()
}

} // verus!

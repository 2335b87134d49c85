use vstd::prelude::*;

verus! {

/// Relies on `rand::random`: a value drawn from the thread-local generator.
/// Nothing is known of the value, so nothing is promised.
pub assume_specification<T>[ rand::random::<T> ]() -> (r: T)
    where
        rand::distributions::Standard: rand::distributions::Distribution<T>,
;

/// Relies on `rand::seq::SliceRandom::shuffle`, run with the thread-local
/// generator: it only exchanges entries of the slice, so the same values stay,
/// in some order.
#[verifier::external_body]
pub(crate) fn shuffle(v: &mut Vec<usize>)
    ensures
        final(v)@.len() == old(v)@.len(),
        final(v)@.to_multiset() == old(v)@.to_multiset(),
{
    rand::seq::SliceRandom::shuffle(v.as_mut_slice(), &mut rand::thread_rng());
}

} // verus!

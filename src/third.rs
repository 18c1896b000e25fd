//! Sorting with a direction flag handed down the network.
use crate::fourth::sort_with;
use crate::order::{
    is_total_comparator, is_total_order, lemma_natural_total, lemma_sorted_by_comparator, natural,
    reports, sorted_by, sorted_by_comparator, strict_on,
};
use crate::{is_pow2, NotPowerOfTwo, SortOrder};
use core::cmp::Ordering;
use vstd::laws_cmp::obeys_cmp;
use vstd::prelude::*;
use vstd::std_specs::cmp::OrdSpec;

verus! {

/// Sorts `x` ascending by `comparator`. Fails, leaving `x` as it was, unless its
/// length is 0, 1 or a power of two.
pub fn sort_by<T, F>(x: &mut [T], comparator: &F) -> (r: Result<(), NotPowerOfTwo>) where
    F: Fn(&T, &T) -> Ordering,

    requires
        is_total_comparator(*comparator),
    ensures
        r is Ok <==> is_pow2(old(x)@.len()),
        r is Ok ==> sorted_by_comparator(*comparator, final(x)@) && final(x)@.to_multiset()
            == old(x)@.to_multiset(),
        r is Err ==> final(x)@ == old(x)@ && r->Err_0.len == old(x)@.len(),
        old(x)@.len() <= 1 ==> final(x)@ == old(x)@,
{
    let ghost ord = choose|ord: spec_fn(T, T) -> Ordering|
        reports(*comparator, ord) && is_total_order(ord);
    let r = sort_with(x, true, comparator, Ghost(ord));
    proof {
        if r is Ok {
            lemma_sorted_by_comparator(*comparator, ord, x@);
        }
    }
    r
}

/// Sorts `x` by `T`'s own order in the direction `order` names, which the network
/// carries as a flag. Fails, leaving `x` as it was, unless its length is 0, 1 or a
/// power of two.
pub fn sort<T: Ord>(x: &mut [T], order: &SortOrder) -> (r: Result<(), NotPowerOfTwo>)
    requires
        obeys_cmp::<T>(),
    ensures
        r is Ok <==> is_pow2(old(x)@.len()),
        r is Ok ==> sorted_by(natural::<T>(), final(x)@, *order == SortOrder::Ascending)
            && final(x)@.to_multiset() == old(x)@.to_multiset(),
        r is Err ==> final(x)@ == old(x)@ && r->Err_0.len == old(x)@.len(),
        old(x)@.len() <= 1 ==> final(x)@ == old(x)@,
        sorted_by(natural::<T>(), old(x)@, *order == SortOrder::Ascending) && strict_on(
            natural::<T>(),
            old(x)@,
        ) ==> final(x)@ == old(x)@,
{
    proof {
        lemma_natural_total::<T>();
    }
    let up = match *order {
        SortOrder::Ascending => true,
        SortOrder::Descending => false,
    };
    let natural_cmp = |a: &T, b: &T| -> (c: Ordering)
        ensures
            T::obeys_cmp_spec() ==> c == a.cmp_spec(b),
        { a.cmp(b) };
    sort_with(x, up, &natural_cmp, Ghost(natural::<T>()))
}

} // verus!

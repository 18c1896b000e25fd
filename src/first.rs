//! Sorting unsigned integers.
use crate::fourth::do_sort;
use crate::is_pow2;
use crate::order::{in_order, is_total_order, lemma_sorted_unique, sorted_by};
use core::cmp::Ordering;
use vstd::prelude::*;

verus! {

/// The numeric order of two integers.
pub open spec fn numeric(a: u32, b: u32) -> Ordering {
    if a < b {
        Ordering::Less
    } else if a == b {
        Ordering::Equal
    } else {
        Ordering::Greater
    }
}

/// Sorts `x` ascending when `up` holds, descending otherwise. The length of `x`
/// must be 0, 1 or a power of two.
pub fn sort(x: &mut [u32], up: bool)
    requires
        is_pow2(old(x)@.len()),
    ensures
        forall|i: int, j: int|
            0 <= i < j < final(x)@.len() ==> if up {
                final(x)@[i] <= final(x)@[j]
            } else {
                final(x)@[i] >= final(x)@[j]
            },
        final(x)@.to_multiset() == old(x)@.to_multiset(),
        (forall|i: int, j: int|
            0 <= i < j < old(x)@.len() ==> if up {
                old(x)@[i] <= old(x)@[j]
            } else {
                old(x)@[i] >= old(x)@[j]
            }) ==> final(x)@ == old(x)@,
{
    let compare = |a: &u32, b: &u32| -> (c: Ordering)
        ensures
            c == numeric(*a, *b),
        {
            if *a < *b {
                Ordering::Less
            } else if *a == *b {
                Ordering::Equal
            } else {
                Ordering::Greater
            }
        };
    let ghost ord = |a: u32, b: u32| numeric(a, b);
    assert(is_total_order(ord));
    let ghost s0 = x@;
    let len = x.len();
    do_sort(x, 0, len, up, &compare, Ghost(ord));
    assert(x@.subrange(0, len as int) =~= x@);
    assert(old(x)@.subrange(0, len as int) =~= old(x)@);
    assert(sorted_by(ord, x@, up));
    assert forall|i: int, j: int| 0 <= i < j < x@.len() implies if up {
        x@[i] <= x@[j]
    } else {
        x@[i] >= x@[j]
    } by {
        assert(in_order(ord, x@[i], x@[j], up));
    }
    proof {
        if forall|i: int, j: int|
            0 <= i < j < s0.len() ==> if up {
                s0[i] <= s0[j]
            } else {
                s0[i] >= s0[j]
            } {
            assert forall|i: int, j: int| 0 <= i < j < s0.len() implies in_order(
                ord,
                #[trigger] s0[i],
                #[trigger] s0[j],
                up,
            ) by {}
            lemma_sorted_unique(ord, s0, x@, up);
        }
    }
}

} // verus!

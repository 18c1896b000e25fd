//! The comparator-driven bitonic network.
use crate::order::{
    in_order, is_total_comparator, is_total_order, lemma_cross_rearranged, lemma_halves_multiset,
    lemma_natural_total, lemma_reversed_sorted, lemma_reversed_total, lemma_sorted_by_comparator,
    lemma_sorted_unique, lemma_swap_multiset, natural, reports, reversed, sorted_by,
    sorted_by_comparator, sorted_range, strict_on,
};
use crate::threshold::{back, bitonic, front, lemma_step, lemma_up_then_down};
use crate::{is_pow2, is_power_of_two, NotPowerOfTwo, SortOrder};
use core::cmp::Ordering;
use vstd::laws_cmp::obeys_cmp;
use vstd::prelude::*;
use vstd::std_specs::cmp::OrdSpec;

verus! {

/// Relies on `<[T]>::swap`: the elements at `i` and `j` trade places.
#[verifier::external_body]
fn swap_at<T>(x: &mut [T], i: usize, j: usize)
    requires
        i < old(x)@.len(),
        j < old(x)@.len(),
    ensures
        final(x)@ == old(x)@.update(i as int, old(x)@[j as int]).update(j as int, old(x)@[i as int]),
{
    x.swap(i, j);
}

/// One compare-and-swap pass over `lo..lo + n`: each element of the front half
/// meets its partner `n / 2` further on, and the two trade places when they stand
/// against the direction `forward`.
fn compare_and_swap<T, F>(
    x: &mut [T],
    lo: usize,
    n: usize,
    forward: bool,
    comparator: &F,
    Ghost(ord): Ghost<spec_fn(T, T) -> Ordering>,
) where F: Fn(&T, &T) -> Ordering
    requires
        reports(*comparator, ord),
        n % 2 == 0,
        lo + n <= old(x)@.len(),
        old(x)@.len() <= usize::MAX,
    ensures
        final(x)@.len() == old(x)@.len(),
        forall|k: int|
            0 <= k < n / 2 ==> final(x)@[lo + k] == front(
                ord,
                old(x)@[lo + k],
                #[trigger] old(x)@[lo + n / 2 + k],
                forward,
            ) && final(x)@[lo + n / 2 + k] == back(ord, old(x)@[lo + k], old(x)@[lo + n / 2 + k], forward),
        forall|k: int|
            0 <= k < old(x)@.len() && !(lo <= k < lo + n) ==> #[trigger] final(x)@[k] == old(x)@[k],
        final(x)@.subrange(lo as int, lo + n).to_multiset() == old(x)@.subrange(lo as int, lo + n).to_multiset(),
{
    let ghost s0 = x@;
    let m = n / 2;
    let mut i: usize = 0;
    while i < m
        invariant
            reports(*comparator, ord),
            m == n / 2,
            n % 2 == 0,
            i <= m,
            lo + n <= s0.len(),
            s0.len() <= usize::MAX,
            x@.len() == s0.len(),
            forall|k: int|
                0 <= k < i ==> x@[lo + k] == front(ord, s0[lo + k], #[trigger] s0[lo + m + k], forward)
                    && x@[lo + m + k] == back(ord, s0[lo + k], s0[lo + m + k], forward),
            forall|k: int| i <= k < m ==> #[trigger] x@[lo + k] == s0[lo + k],
            forall|k: int| i <= k < m ==> #[trigger] x@[lo + m + k] == s0[lo + m + k],
            forall|k: int| 0 <= k < s0.len() && !(lo <= k < lo + n) ==> #[trigger] x@[k] == s0[k],
            x@.subrange(lo as int, lo + n).to_multiset() == s0.subrange(lo as int, lo + n).to_multiset(),
        decreases m - i,
    {
        let r = comparator(&x[lo + i], &x[lo + m + i]);
        let swap = match r {
            Ordering::Greater => forward,
            Ordering::Less => !forward,
            Ordering::Equal => false,
        };
        assert(x@[lo + i] == s0[lo + i] && x@[lo + m + i] == s0[lo + m + i]);
        assert(swap == !in_order(ord, s0[lo + i], s0[lo + m + i], forward));
        if swap {
            let ghost before = x@;
            proof {
                lemma_swap_multiset(before.subrange(lo as int, lo + n), i as int, m + i);
            }
            swap_at(x, lo + i, lo + m + i);
            assert(x@.subrange(lo as int, lo + n) =~= before.subrange(lo as int, lo + n).update(
                i as int,
                before[lo + m + i],
            ).update(m + i, before[lo + i]));
        }
        i = i + 1;
    }
}

/// Turns the bitonic run `lo..lo + n` into a run ordered in direction `forward`.
fn sub_sort<T, F>(
    x: &mut [T],
    lo: usize,
    n: usize,
    forward: bool,
    comparator: &F,
    Ghost(ord): Ghost<spec_fn(T, T) -> Ordering>,
) where F: Fn(&T, &T) -> Ordering
    requires
        reports(*comparator, ord),
        is_total_order(ord),
        is_pow2(n as nat),
        lo + n <= old(x)@.len(),
        old(x)@.len() <= usize::MAX,
        bitonic(ord, old(x)@.subrange(lo as int, lo + n)),
    ensures
        final(x)@.len() == old(x)@.len(),
        sorted_range(ord, final(x)@, lo as int, lo + n, forward),
        forall|k: int|
            0 <= k < old(x)@.len() && !(lo <= k < lo + n) ==> #[trigger] final(x)@[k] == old(x)@[k],
        final(x)@.subrange(lo as int, lo + n).to_multiset() == old(x)@.subrange(lo as int, lo + n).to_multiset(),
    decreases n,
{
    if n > 1 {
        let ghost s0 = x@;
        compare_and_swap(x, lo, n, forward, comparator, Ghost(ord));
        let ghost s1 = x@;
        proof {
            lemma_step(ord, s0, s1, lo as int, n as int, forward);
        }
        let m = n / 2;
        assert(x@.subrange(lo as int, lo + m) =~= s1.subrange(lo as int, lo + m));
        sub_sort(x, lo, m, forward, comparator, Ghost(ord));
        let ghost s2 = x@;
        assert(s2.subrange(lo + m, lo + n) =~= s1.subrange(lo + m, lo + n));
        sub_sort(x, lo + m, m, forward, comparator, Ghost(ord));
        let ghost s3 = x@;
        proof {
            assert(s3.subrange(lo as int, lo + m) =~= s2.subrange(lo as int, lo + m));
            lemma_cross_rearranged(
                ord,
                s1.subrange(lo as int, lo + m),
                s1.subrange(lo + m, lo + n),
                s3.subrange(lo as int, lo + m),
                s3.subrange(lo + m, lo + n),
                forward,
            );
            assert forall|i: int, j: int| lo <= i < j < lo + n implies in_order(
                ord,
                #[trigger] s3[i],
                #[trigger] s3[j],
                forward,
            ) by {
                if j < lo + m {
                    assert(s3[i] == s2[i] && s3[j] == s2[j]);
                } else if i >= lo + m {
                } else {
                    assert(s3[i] == s3.subrange(lo as int, lo + m)[i - lo]);
                    assert(s3[j] == s3.subrange(lo + m, lo + n)[j - lo - m]);
                }
            }
            lemma_halves_multiset(s3, s1, lo as int, lo + m, lo + n);
        }
    }
}

/// Orders `lo..lo + n` in direction `forward`: the front half ascending, the back
/// half descending, and then the bitonic whole merged.
pub(crate) fn do_sort<T, F>(
    x: &mut [T],
    lo: usize,
    n: usize,
    forward: bool,
    comparator: &F,
    Ghost(ord): Ghost<spec_fn(T, T) -> Ordering>,
) where F: Fn(&T, &T) -> Ordering
    requires
        reports(*comparator, ord),
        is_total_order(ord),
        is_pow2(n as nat),
        lo + n <= old(x)@.len(),
        old(x)@.len() <= usize::MAX,
    ensures
        final(x)@.len() == old(x)@.len(),
        sorted_range(ord, final(x)@, lo as int, lo + n, forward),
        forall|k: int|
            0 <= k < old(x)@.len() && !(lo <= k < lo + n) ==> #[trigger] final(x)@[k] == old(x)@[k],
        final(x)@.subrange(lo as int, lo + n).to_multiset() == old(x)@.subrange(lo as int, lo + n).to_multiset(),
        n <= 1 ==> final(x)@ == old(x)@,
    decreases n,
{
    if n > 1 {
        let ghost s0 = x@;
        let m = n / 2;
        do_sort(x, lo, m, true, comparator, Ghost(ord));
        let ghost s1 = x@;
        do_sort(x, lo + m, m, false, comparator, Ghost(ord));
        let ghost s2 = x@;
        proof {
            assert(s2.subrange(lo as int, lo + m) =~= s1.subrange(lo as int, lo + m));
            assert(s1.subrange(lo + m, lo + n) =~= s0.subrange(lo + m, lo + n));
            lemma_halves_multiset(s2, s0, lo as int, lo + m, lo + n);
            let w = s2.subrange(lo as int, lo + n);
            assert forall|i: int, j: int| 0 <= i < j < m implies in_order(
                ord,
                #[trigger] w[i],
                #[trigger] w[j],
                true,
            ) by {
                assert(s2[lo + i] == s1[lo + i] && s2[lo + j] == s1[lo + j]);
            }
            assert forall|i: int, j: int| m <= i < j < n implies in_order(
                ord,
                #[trigger] w[i],
                #[trigger] w[j],
                false,
            ) by {
                assert(in_order(ord, s2[lo + i], s2[lo + j], false));
            }
            lemma_up_then_down(ord, w, m as int);
        }
        sub_sort(x, lo, n, forward, comparator, Ghost(ord));
    }
}

/// Checks the length, then sorts all of `x` in direction `forward` by what
/// `comparator` reports (`ord`).
pub(crate) fn sort_with<T, F>(
    x: &mut [T],
    forward: bool,
    comparator: &F,
    Ghost(ord): Ghost<spec_fn(T, T) -> Ordering>,
) -> (r: Result<(), NotPowerOfTwo>) where F: Fn(&T, &T) -> Ordering
    requires
        reports(*comparator, ord),
        is_total_order(ord),
    ensures
        r is Ok <==> is_pow2(old(x)@.len()),
        r is Ok ==> sorted_by(ord, final(x)@, forward) && final(x)@.to_multiset()
            == old(x)@.to_multiset(),
        r is Err ==> final(x)@ == old(x)@ && r->Err_0.len == old(x)@.len(),
        old(x)@.len() <= 1 ==> final(x)@ == old(x)@,
        sorted_by(ord, old(x)@, forward) && strict_on(ord, old(x)@) ==> final(x)@ == old(x)@,
{
    let len = x.len();
    if is_power_of_two(len) {
        do_sort(x, 0, len, forward, comparator, Ghost(ord));
        assert(x@.subrange(0, len as int) =~= x@);
        assert(old(x)@.subrange(0, len as int) =~= old(x)@);
        proof {
            if sorted_by(ord, old(x)@, forward) && strict_on(ord, old(x)@) {
                lemma_sorted_unique(ord, old(x)@, x@, forward);
            }
        }
        Ok(())
    } else {
        Err(NotPowerOfTwo { len })
    }
}

/// Sorts `x` ascending by `comparator`: descending order is had by a comparator
/// that answers the other way round. Fails, leaving `x` as it was, unless its
/// length is 0, 1 or a power of two.
pub fn sort_by<T, F>(x: &mut [T], comparator: &F) -> (r: Result<(), NotPowerOfTwo>) where
    F: Fn(&T, &T) -> Ordering,

    requires
        is_total_comparator(*comparator),
    ensures
        r is Ok <==> is_pow2(old(x)@.len()),
        r is Ok ==> sorted_by_comparator(*comparator, final(x)@) && final(x)@.to_multiset()
            == old(x)@.to_multiset(),
        r is Err ==> final(x)@ == old(x)@ && r->Err_0.len == old(x)@.len(),
        old(x)@.len() <= 1 ==> final(x)@ == old(x)@,
{
    let ghost ord = choose|ord: spec_fn(T, T) -> Ordering|
        reports(*comparator, ord) && is_total_order(ord);
    let r = sort_with(x, true, comparator, Ghost(ord));
    proof {
        if r is Ok {
            lemma_sorted_by_comparator(*comparator, ord, x@);
        }
    }
    r
}

/// Sorts `x` by `T`'s own order, in the direction `order` names. Fails, leaving
/// `x` as it was, unless its length is 0, 1 or a power of two.
pub fn sort<T: Ord>(x: &mut [T], order: &SortOrder) -> (r: Result<(), NotPowerOfTwo>)
    requires
        obeys_cmp::<T>(),
    ensures
        r is Ok <==> is_pow2(old(x)@.len()),
        r is Ok ==> sorted_by(natural::<T>(), final(x)@, *order == SortOrder::Ascending)
            && final(x)@.to_multiset() == old(x)@.to_multiset(),
        r is Err ==> final(x)@ == old(x)@ && r->Err_0.len == old(x)@.len(),
        old(x)@.len() <= 1 ==> final(x)@ == old(x)@,
        sorted_by(natural::<T>(), old(x)@, *order == SortOrder::Ascending) && strict_on(
            natural::<T>(),
            old(x)@,
        ) ==> final(x)@ == old(x)@,
{
    proof {
        lemma_natural_total::<T>();
        lemma_reversed_total(natural::<T>());
        lemma_reversed_sorted(natural::<T>(), old(x)@);
    }
    match *order {
        SortOrder::Ascending => {
            let ascending = |a: &T, b: &T| -> (c: Ordering)
                ensures
                    T::obeys_cmp_spec() ==> c == a.cmp_spec(b),
                { a.cmp(b) };
            sort_with(x, true, &ascending, Ghost(natural::<T>()))
        },
        SortOrder::Descending => {
            let descending = |a: &T, b: &T| -> (c: Ordering)
                ensures
                    T::obeys_cmp_spec() ==> c == b.cmp_spec(a),
                { b.cmp(a) };
            let r = sort_with(x, true, &descending, Ghost(reversed(natural::<T>())));
            proof {
                if r is Ok {
                    lemma_reversed_sorted(natural::<T>(), x@);
                }
            }
            r
        },
    }
}

} // verus!

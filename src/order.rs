//! Orderings, comparators, sortedness, and rearrangements.
use core::cmp::Ordering;
use vstd::laws_cmp::{
    obeys_cmp, obeys_cmp_ord, obeys_cmp_partial_ord, obeys_partial_cmp_spec_properties,
};
use vstd::prelude::*;
use vstd::std_specs::cmp::{OrdSpec, PartialEqSpec, PartialOrdSpec};

verus! {

/// `ord` is a total preorder, seen through its `Ordering` results.
pub open spec fn is_total_order<T>(ord: spec_fn(T, T) -> Ordering) -> bool {
    &&& forall|a: T, b: T| #[trigger] ord(a, b) == Ordering::Greater <==> ord(b, a) == Ordering::Less
    &&& forall|a: T, b: T, c: T|
        #![trigger ord(a, b), ord(b, c)]
        ord(a, b) != Ordering::Greater && ord(b, c) != Ordering::Greater ==> ord(a, c)
            != Ordering::Greater
}

/// `a` may stand before `b` in a run ordered by `ord` in direction `forward`.
pub open spec fn in_order<T>(ord: spec_fn(T, T) -> Ordering, a: T, b: T, forward: bool) -> bool {
    if forward {
        ord(a, b) != Ordering::Greater
    } else {
        ord(a, b) != Ordering::Less
    }
}

/// Positions `lo..hi` of `s` are ordered by `ord` in direction `forward`.
pub open spec fn sorted_range<T>(
    ord: spec_fn(T, T) -> Ordering,
    s: Seq<T>,
    lo: int,
    hi: int,
    forward: bool,
) -> bool {
    forall|i: int, j: int| lo <= i < j < hi ==> in_order(ord, #[trigger] s[i], #[trigger] s[j], forward)
}

/// All of `s` is ordered by `ord` in direction `forward`.
pub open spec fn sorted_by<T>(ord: spec_fn(T, T) -> Ordering, s: Seq<T>, forward: bool) -> bool {
    sorted_range(ord, s, 0, s.len() as int, forward)
}

/// Swapping two positions keeps the multiset of a sequence.
pub proof fn lemma_swap_multiset<T>(s: Seq<T>, i: int, j: int)
    requires
        0 <= i < s.len(),
        0 <= j < s.len(),
    ensures
        s.update(i, s[j]).update(j, s[i]).to_multiset() == s.to_multiset(),
{
    broadcast use vstd::seq_lib::group_to_multiset_ensures;

    if i != j {
        let s1 = s.update(i, s[j]);
        assert(s1[j] == s[j]);
        assert(s1.update(j, s[i]).to_multiset() =~= s.to_multiset());
    } else {
        assert(s.update(i, s[j]).update(j, s[i]) =~= s);
    }
}

/// A relation that holds between every element of `a` and every element of `b`
/// holds as well after each side is rearranged.
pub proof fn lemma_cross_rearranged<T>(
    ord: spec_fn(T, T) -> Ordering,
    a: Seq<T>,
    b: Seq<T>,
    a2: Seq<T>,
    b2: Seq<T>,
    forward: bool,
)
    requires
        forall|i: int, j: int|
            0 <= i < a.len() && 0 <= j < b.len() ==> in_order(ord, #[trigger] a[i], #[trigger] b[j], forward),
        a2.to_multiset() == a.to_multiset(),
        b2.to_multiset() == b.to_multiset(),
    ensures
        forall|i: int, j: int|
            0 <= i < a2.len() && 0 <= j < b2.len() ==> in_order(ord, #[trigger] a2[i], #[trigger] b2[j], forward),
{
    broadcast use vstd::seq_lib::group_to_multiset_ensures;

    assert forall|i: int, j: int| 0 <= i < a2.len() && 0 <= j < b2.len() implies in_order(
        ord,
        #[trigger] a2[i],
        #[trigger] b2[j],
        forward,
    ) by {
        assert(a2.contains(a2[i]));
        assert(b2.contains(b2[j]));
        assert(a2.to_multiset().count(a2[i]) > 0);
        assert(b2.to_multiset().count(b2[j]) > 0);
        assert(a.contains(a2[i]));
        assert(b.contains(b2[j]));
        let i0 = choose|i0: int| 0 <= i0 < a.len() && a[i0] == a2[i];
        let j0 = choose|j0: int| 0 <= j0 < b.len() && b[j0] == b2[j];
        assert(in_order(ord, a[i0], b[j0], forward));
    }
}

/// Joining two halves joins their multisets.
pub proof fn lemma_halves_multiset<T>(s: Seq<T>, t: Seq<T>, lo: int, mid: int, hi: int)
    requires
        0 <= lo <= mid <= hi <= s.len(),
        hi <= t.len(),
        s.subrange(lo, mid).to_multiset() == t.subrange(lo, mid).to_multiset(),
        s.subrange(mid, hi).to_multiset() == t.subrange(mid, hi).to_multiset(),
    ensures
        s.subrange(lo, hi).to_multiset() == t.subrange(lo, hi).to_multiset(),
{
    vstd::seq_lib::lemma_multiset_commutative(s.subrange(lo, mid), s.subrange(mid, hi));
    vstd::seq_lib::lemma_multiset_commutative(t.subrange(lo, mid), t.subrange(mid, hi));
    assert(s.subrange(lo, hi) =~= s.subrange(lo, mid) + s.subrange(mid, hi));
    assert(t.subrange(lo, hi) =~= t.subrange(lo, mid) + t.subrange(mid, hi));
}

/// `f` can be called on every pair and reports `ord` on it.
pub open spec fn reports<T, F: Fn(&T, &T) -> Ordering>(f: F, ord: spec_fn(T, T) -> Ordering) -> bool {
    &&& forall|a: &T, b: &T| #[trigger] f.requires((a, b))
    &&& forall|a: &T, b: &T, r: Ordering| #[trigger] f.ensures((a, b), r) ==> r == ord(*a, *b)
}

/// Some total preorder is what `f` reports on every pair.
pub open spec fn is_total_comparator<T, F: Fn(&T, &T) -> Ordering>(f: F) -> bool {
    exists|ord: spec_fn(T, T) -> Ordering| reports(f, ord) && is_total_order(ord)
}

/// Wherever `f` answers on two elements of `s` taken in order, it does not answer `Greater`.
pub open spec fn sorted_by_comparator<T, F: Fn(&T, &T) -> Ordering>(f: F, s: Seq<T>) -> bool {
    forall|i: int, j: int, r: Ordering|
        0 <= i < j < s.len() && #[trigger] f.ensures((&s[i], &s[j]), r) ==> r != Ordering::Greater
}

/// A run ordered by what `f` reports is ordered by `f` itself.
pub proof fn lemma_sorted_by_comparator<T, F: Fn(&T, &T) -> Ordering>(
    f: F,
    ord: spec_fn(T, T) -> Ordering,
    s: Seq<T>,
)
    requires
        reports(f, ord),
        sorted_by(ord, s, true),
    ensures
        sorted_by_comparator(f, s),
{
    assert forall|i: int, j: int, r: Ordering|
        0 <= i < j < s.len() && #[trigger] f.ensures((&s[i], &s[j]), r) implies r != Ordering::Greater by {
        assert(in_order(ord, s[i], s[j], true));
    }
}

/// The order that `T`'s `Ord` implementation states through `cmp_spec`.
pub open spec fn natural<T: Ord>() -> spec_fn(T, T) -> Ordering {
    |a: T, b: T| a.cmp_spec(&b)
}

/// `ord` with its arguments exchanged.
pub open spec fn reversed<T>(ord: spec_fn(T, T) -> Ordering) -> spec_fn(T, T) -> Ordering {
    |a: T, b: T| ord(b, a)
}

/// A lawful `Ord` implementation is a total preorder.
pub proof fn lemma_natural_total<T: Ord>()
    requires
        obeys_cmp::<T>(),
    ensures
        is_total_order(natural::<T>()),
        T::obeys_cmp_spec(),
{
    reveal(obeys_partial_cmp_spec_properties);
    reveal(obeys_cmp_ord);
    reveal(obeys_cmp_partial_ord);
    reveal(vstd::laws_eq::obeys_eq_spec_properties);
    let ord = natural::<T>();
    assert forall|a: T, b: T| #[trigger] ord(a, b) == Ordering::Greater <==> ord(b, a) == Ordering::Less by {
        assert(a.partial_cmp_spec(&b) == Some(a.cmp_spec(&b)));
        assert(b.partial_cmp_spec(&a) == Some(b.cmp_spec(&a)));
    }
    assert forall|a: T, b: T, c: T|
        #![trigger ord(a, b), ord(b, c)]
        ord(a, b) != Ordering::Greater && ord(b, c) != Ordering::Greater implies ord(a, c)
            != Ordering::Greater by {
        assert(a.partial_cmp_spec(&b) == Some(a.cmp_spec(&b)));
        assert(b.partial_cmp_spec(&a) == Some(b.cmp_spec(&a)));
        assert(b.partial_cmp_spec(&c) == Some(b.cmp_spec(&c)));
        assert(c.partial_cmp_spec(&b) == Some(c.cmp_spec(&b)));
        assert(a.partial_cmp_spec(&c) == Some(a.cmp_spec(&c)));
        assert(c.partial_cmp_spec(&a) == Some(c.cmp_spec(&a)));
        if a.cmp_spec(&b) == Ordering::Equal && b.cmp_spec(&c) == Ordering::Equal {
            assert(a.eq_spec(&b) && b.eq_spec(&c));
            assert(a.eq_spec(&c));
        }
    }
}

/// Exchanging the arguments of a total preorder gives a total preorder.
pub proof fn lemma_reversed_total<T>(ord: spec_fn(T, T) -> Ordering)
    requires
        is_total_order(ord),
    ensures
        is_total_order(reversed(ord)),
{
    let rev = reversed(ord);
    assert forall|a: T, b: T| #[trigger] rev(a, b) == Ordering::Greater <==> rev(b, a) == Ordering::Less by {
        assert(ord(b, a) == Ordering::Greater <==> ord(a, b) == Ordering::Less);
    }
    assert forall|a: T, b: T, c: T|
        #![trigger rev(a, b), rev(b, c)]
        rev(a, b) != Ordering::Greater && rev(b, c) != Ordering::Greater implies rev(a, c)
            != Ordering::Greater by {
        assert(ord(c, b) != Ordering::Greater && ord(b, a) != Ordering::Greater ==> ord(c, a)
            != Ordering::Greater);
    }
}

/// Ascending under the reversed order is descending under the order itself.
pub proof fn lemma_reversed_sorted<T>(ord: spec_fn(T, T) -> Ordering, s: Seq<T>)
    requires
        is_total_order(ord),
    ensures
        sorted_by(reversed(ord), s, true) <==> sorted_by(ord, s, false),
        strict_on(reversed(ord), s) <==> strict_on(ord, s),
{
    assert forall|i: int, j: int|
        0 <= i < s.len() && 0 <= j < s.len() implies (in_order(reversed(ord), #[trigger] s[i], #[trigger] s[j], true)
            <==> in_order(ord, s[i], s[j], false)) && (reversed(ord)(s[i], s[j]) == ord(s[j], s[i])) by {
        assert(ord(s[j], s[i]) == Ordering::Greater <==> ord(s[i], s[j]) == Ordering::Less);
    }
    if strict_on(ord, s) {
        assert forall|i: int, j: int|
            0 <= i < s.len() && 0 <= j < s.len() && #[trigger] reversed(ord)(s[i], s[j]) == Ordering::Equal implies s[i]
                == s[j] by {
            assert(ord(s[j], s[i]) == Ordering::Equal);
        }
    }
    if strict_on(reversed(ord), s) {
        assert forall|i: int, j: int|
            0 <= i < s.len() && 0 <= j < s.len() && #[trigger] ord(s[i], s[j]) == Ordering::Equal implies s[i]
                == s[j] by {
            assert(reversed(ord)(s[j], s[i]) == Ordering::Equal);
        }
    }
}

/// No two elements of `s` are distinct and yet `Equal` under `ord`.
pub open spec fn strict_on<T>(ord: spec_fn(T, T) -> Ordering, s: Seq<T>) -> bool {
    forall|i: int, j: int|
        0 <= i < s.len() && 0 <= j < s.len() && #[trigger] ord(s[i], s[j]) == Ordering::Equal ==> s[i]
            == s[j]
}

/// Sorting is idempotent: a sequence already ordered in direction `forward` has no
/// other arrangement so ordered. So a sort, whose result is an ordered
/// rearrangement of its input, hands an ordered input back unchanged, provided no
/// two distinct elements of it compare `Equal` (those a sort may exchange).
pub proof fn lemma_sorted_unique<T>(ord: spec_fn(T, T) -> Ordering, before: Seq<T>, after: Seq<T>, forward: bool)
    requires
        is_total_order(ord),
        sorted_by(ord, before, forward),
        sorted_by(ord, after, forward),
        after.to_multiset() == before.to_multiset(),
        strict_on(ord, before),
    ensures
        after == before,
    decreases before.len(),
{
    broadcast use vstd::seq_lib::group_to_multiset_ensures;

    assert(after.to_multiset().len() == after.len());
    assert(before.to_multiset().len() == before.len());
    if before.len() > 0 {
        let a = before[0];
        let b = after[0];
        assert(after.contains(b));
        assert(after.to_multiset().count(b) > 0);
        assert(before.contains(b));
        let i = choose|i: int| 0 <= i < before.len() && before[i] == b;
        assert(before.to_multiset().count(a) > 0);
        assert(after.contains(a));
        let j = choose|j: int| 0 <= j < after.len() && after[j] == a;
        if i > 0 {
            assert(in_order(ord, before[0], before[i], forward));
        }
        if j > 0 {
            assert(in_order(ord, after[0], after[j], forward));
        }
        assert(ord(a, b) == Ordering::Greater <==> ord(b, a) == Ordering::Less);
        assert(ord(b, a) == Ordering::Greater <==> ord(a, b) == Ordering::Less);
        assert(ord(a, a) == Ordering::Greater <==> ord(a, a) == Ordering::Less);
        assert(ord(before[0], before[i]) == Ordering::Equal);
        assert(a == b);
        let before1 = before.remove(0);
        let after1 = after.remove(0);
        assert forall|x: int, y: int| 0 <= x < y < before1.len() implies in_order(
            ord,
            #[trigger] before1[x],
            #[trigger] before1[y],
            forward,
        ) by {
            assert(before1[x] == before[x + 1] && before1[y] == before[y + 1]);
        }
        assert forall|x: int, y: int| 0 <= x < y < after1.len() implies in_order(
            ord,
            #[trigger] after1[x],
            #[trigger] after1[y],
            forward,
        ) by {
            assert(after1[x] == after[x + 1] && after1[y] == after[y + 1]);
        }
        assert forall|x: int, y: int|
            0 <= x < before1.len() && 0 <= y < before1.len() && #[trigger] ord(before1[x], before1[y])
                == Ordering::Equal implies before1[x] == before1[y] by {
            assert(before1[x] == before[x + 1] && before1[y] == before[y + 1]);
            assert(ord(before[x + 1], before[y + 1]) == Ordering::Equal);
        }
        assert(before1.to_multiset() == before.to_multiset().remove(a));
        assert(after1.to_multiset() == after.to_multiset().remove(b));
        lemma_sorted_unique(ord, before1, after1, forward);
        assert forall|k: int| 0 <= k < after.len() implies #[trigger] after[k] == before[k] by {
            if k > 0 {
                assert(after[k] == after1[k - 1] && before[k] == before1[k - 1]);
            }
        }
        assert(after =~= before);
    }
}

} // verus!

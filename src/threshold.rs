//! The threshold argument behind the bitonic network: every element splits a run
//! into those above it and the rest, and a compare-and-swap step acts on that 0-1
//! image as it would on the run itself.
use crate::order::{in_order, is_total_order, sorted_range};
use core::cmp::Ordering;
use vstd::prelude::*;

verus! {

/// Which elements of `s` lie strictly above the threshold `t`.
pub open spec fn above<T>(ord: spec_fn(T, T) -> Ordering, s: Seq<T>, t: T) -> Seq<bool> {
    Seq::new(s.len(), |k: int| ord(s[k], t) == Ordering::Greater)
}

/// `b` is true exactly on `p..q` (or exactly off it, when `inv`).
pub open spec fn block_form(b: Seq<bool>, p: int, q: int, inv: bool) -> bool {
    &&& 0 <= p <= q <= b.len()
    &&& forall|k: int| 0 <= k < b.len() ==> #[trigger] b[k] == ((p <= k && k < q) != inv)
}

/// A 0-1 sequence of shape `0*1*0*` or `1*0*1*`.
pub open spec fn bitonic_bits(b: Seq<bool>) -> bool {
    exists|p: int, q: int, inv: bool| block_form(b, p, q, inv)
}

/// Every threshold splits `s` into a bitonic 0-1 sequence: `s` is bitonic under `ord`.
pub open spec fn bitonic<T>(ord: spec_fn(T, T) -> Ordering, s: Seq<T>) -> bool {
    forall|t: T| bitonic_bits(#[trigger] above(ord, s, t))
}

/// Pairwise minimum of the two halves of a 0-1 sequence of length `2 * m`.
pub open spec fn low_half(b: Seq<bool>, m: int) -> Seq<bool> {
    Seq::new(m as nat, |k: int| b[k] && b[k + m])
}

/// Pairwise maximum of the two halves of a 0-1 sequence of length `2 * m`.
pub open spec fn high_half(b: Seq<bool>, m: int) -> Seq<bool> {
    Seq::new(m as nat, |k: int| b[k] || b[k + m])
}

/// Half-cleaning a bitonic 0-1 sequence leaves two bitonic halves, one of them clean.
pub proof fn lemma_half_clean(b: Seq<bool>, m: int, p: int, q: int, inv: bool)
    requires
        m > 0,
        b.len() == 2 * m,
        block_form(b, p, q, inv),
    ensures
        bitonic_bits(low_half(b, m)),
        bitonic_bits(high_half(b, m)),
        (forall|k: int| 0 <= k < m ==> !#[trigger] low_half(b, m)[k]) || (forall|k: int|
            0 <= k < m ==> #[trigger] high_half(b, m)[k]),
{
    let lo = low_half(b, m);
    let hi = high_half(b, m);
    assert forall|k: int| 0 <= k < m implies lo[k] == (b[k] && b[k + m]) && hi[k] == (b[k] || b[k
        + m]) by {}
    if !inv {
        if q - p <= m {
            assert(block_form(lo, 0, 0, false));
            if q <= m {
                assert(block_form(hi, p, q, false));
            } else if p >= m {
                assert(block_form(hi, p - m, q - m, false));
            } else {
                assert(block_form(hi, q - m, p, true));
            }
        } else {
            assert(block_form(hi, 0, 0, true));
            assert(block_form(lo, p, q - m, false));
        }
    } else {
        if q - p <= m {
            assert(block_form(hi, 0, 0, true));
            if q <= m {
                assert(block_form(lo, p, q, true));
            } else if p >= m {
                assert(block_form(lo, p - m, q - m, true));
            } else {
                assert(block_form(lo, q - m, p, false));
            }
        } else {
            assert(block_form(lo, 0, 0, false));
            assert(block_form(hi, p, q - m, true));
        }
    }
}

/// A monotone 0-1 sequence switches once: at `p`.
pub proof fn lemma_switch_point(b: Seq<bool>, up: bool) -> (p: int)
    requires
        forall|i: int, j: int|
            0 <= i < j < b.len() ==> (if up {
                #[trigger] b[i] ==> #[trigger] b[j]
            } else {
                b[j] ==> b[i]
            }),
    ensures
        0 <= p <= b.len(),
        forall|k: int| 0 <= k < b.len() ==> #[trigger] b[k] == ((k >= p) == up),
    decreases b.len(),
{
    if b.len() == 0 {
        0
    } else {
        let n = b.len() - 1;
        let c = b.drop_last();
        assert forall|i: int, j: int| 0 <= i < j < c.len() implies (if up {
            #[trigger] c[i] ==> #[trigger] c[j]
        } else {
            c[j] ==> c[i]
        }) by {
            assert(c[i] == b[i] && c[j] == b[j]);
        }
        let p0 = lemma_switch_point(c, up);
        assert forall|k: int| 0 <= k < n implies #[trigger] b[k] == c[k] by {}
        if b[n] == up {
            p0
        } else {
            assert forall|k: int| 0 <= k < b.len() implies #[trigger] b[k] == ((k >= b.len()) == up) by {
                if k < n {
                    assert(if up { b[k] ==> b[n] } else { b[n] ==> b[k] });
                }
            }
            b.len() as int
        }
    }
}

/// An ascending run followed by a descending run of the same length is bitonic.
pub proof fn lemma_up_then_down<T>(ord: spec_fn(T, T) -> Ordering, s: Seq<T>, m: int)
    requires
        is_total_order(ord),
        s.len() == 2 * m,
        sorted_range(ord, s, 0, m, true),
        sorted_range(ord, s, m, 2 * m, false),
    ensures
        bitonic(ord, s),
{
    assert forall|t: T| bitonic_bits(#[trigger] above(ord, s, t)) by {
        let b = above(ord, s, t);
        let l = b.subrange(0, m);
        let r = b.subrange(m, 2 * m);
        assert forall|i: int, j: int| 0 <= i < j < l.len() && #[trigger] l[i] implies #[trigger] l[j] by {
            assert(in_order(ord, s[i], s[j], true));
        }
        assert forall|i: int, j: int| 0 <= i < j < r.len() && #[trigger] r[j] implies #[trigger] r[i] by {
            assert(in_order(ord, s[m + i], s[m + j], false));
            assert(ord(s[m + j], s[m + i]) != Ordering::Greater);
        }
        let p = lemma_switch_point(l, true);
        let q = lemma_switch_point(r, false);
        assert forall|k: int| 0 <= k < b.len() implies #[trigger] b[k] == ((p <= k && k < m + q) != false) by {
            if k < m {
                assert(b[k] == l[k]);
            } else {
                assert(b[k] == r[k - m]);
            }
        }
        assert(block_form(b, p, m + q, false));
    }
}

/// Of the pair `(a, b)`, the one that a compare-and-swap step leaves in front.
pub open spec fn front<T>(ord: spec_fn(T, T) -> Ordering, a: T, b: T, forward: bool) -> T {
    if in_order(ord, a, b, forward) {
        a
    } else {
        b
    }
}

/// Of the pair `(a, b)`, the one that a compare-and-swap step leaves behind.
pub open spec fn back<T>(ord: spec_fn(T, T) -> Ordering, a: T, b: T, forward: bool) -> T {
    if in_order(ord, a, b, forward) {
        b
    } else {
        a
    }
}

/// Thresholds commute with a compare-and-swap step: it acts on the 0-1 images
/// as a minimum and a maximum.
pub proof fn lemma_step_above<T>(ord: spec_fn(T, T) -> Ordering, a: T, b: T, t: T, forward: bool)
    requires
        is_total_order(ord),
    ensures
        (ord(front(ord, a, b, forward), t) == Ordering::Greater) == (if forward {
            ord(a, t) == Ordering::Greater && ord(b, t) == Ordering::Greater
        } else {
            ord(a, t) == Ordering::Greater || ord(b, t) == Ordering::Greater
        }),
        (ord(back(ord, a, b, forward), t) == Ordering::Greater) == (if forward {
            ord(a, t) == Ordering::Greater || ord(b, t) == Ordering::Greater
        } else {
            ord(a, t) == Ordering::Greater && ord(b, t) == Ordering::Greater
        }),
{
    assert(ord(a, b) == Ordering::Greater <==> ord(b, a) == Ordering::Less);
    assert(ord(b, a) == Ordering::Greater <==> ord(a, b) == Ordering::Less);
    if ord(a, b) != Ordering::Greater && ord(b, t) != Ordering::Greater {
        assert(ord(a, t) != Ordering::Greater);
    }
    if ord(b, a) != Ordering::Greater && ord(a, t) != Ordering::Greater {
        assert(ord(b, t) != Ordering::Greater);
    }
}

/// Facts about one threshold `t` after a compare-and-swap step over `lo..lo + n`.
pub proof fn lemma_step_at<T>(
    ord: spec_fn(T, T) -> Ordering,
    s0: Seq<T>,
    s1: Seq<T>,
    lo: int,
    n: int,
    forward: bool,
    t: T,
)
    requires
        is_total_order(ord),
        n >= 2,
        n % 2 == 0,
        0 <= lo,
        lo + n <= s0.len(),
        s1.len() == s0.len(),
        bitonic(ord, s0.subrange(lo, lo + n)),
        forall|k: int|
            0 <= k < n / 2 ==> s1[lo + k] == front(ord, s0[lo + k], #[trigger] s0[lo + n / 2 + k], forward)
                && s1[lo + n / 2 + k] == back(ord, s0[lo + k], s0[lo + n / 2 + k], forward),
    ensures
        bitonic_bits(above(ord, s1.subrange(lo, lo + n / 2), t)),
        bitonic_bits(above(ord, s1.subrange(lo + n / 2, lo + n), t)),
        forward ==> (forall|k: int| 0 <= k < n / 2 ==> ord(#[trigger] s1[lo + k], t) != Ordering::Greater)
            || (forall|k: int| 0 <= k < n / 2 ==> ord(#[trigger] s1[lo + n / 2 + k], t) == Ordering::Greater),
        !forward ==> (forall|k: int| 0 <= k < n / 2 ==> ord(#[trigger] s1[lo + n / 2 + k], t) != Ordering::Greater)
            || (forall|k: int| 0 <= k < n / 2 ==> ord(#[trigger] s1[lo + k], t) == Ordering::Greater),
{
    let m = n / 2;
    let b = above(ord, s0.subrange(lo, lo + n), t);
    assert(bitonic_bits(b));
    let (p, q, inv) = choose|p: int, q: int, inv: bool| block_form(b, p, q, inv);
    lemma_half_clean(b, m, p, q, inv);
    let l = above(ord, s1.subrange(lo, lo + m), t);
    let r = above(ord, s1.subrange(lo + m, lo + n), t);
    assert forall|k: int| 0 <= k < m implies (#[trigger] l[k] == (if forward {
        low_half(b, m)[k]
    } else {
        high_half(b, m)[k]
    })) by {
        assert(s1[lo + k] == front(ord, s0[lo + k], s0[lo + m + k], forward));
        lemma_step_above(ord, s0[lo + k], s0[lo + m + k], t, forward);
        assert(b[k] == (ord(s0[lo + k], t) == Ordering::Greater));
        assert(b[k + m] == (ord(s0[lo + m + k], t) == Ordering::Greater));
    }
    assert forall|k: int| 0 <= k < m implies (#[trigger] r[k] == (if forward {
        high_half(b, m)[k]
    } else {
        low_half(b, m)[k]
    })) by {
        assert(s1[lo + m + k] == back(ord, s0[lo + k], s0[lo + m + k], forward));
        lemma_step_above(ord, s0[lo + k], s0[lo + m + k], t, forward);
        assert(b[k] == (ord(s0[lo + k], t) == Ordering::Greater));
        assert(b[k + m] == (ord(s0[lo + m + k], t) == Ordering::Greater));
    }
    if forward {
        assert(l =~= low_half(b, m));
        assert(r =~= high_half(b, m));
    } else {
        assert(l =~= high_half(b, m));
        assert(r =~= low_half(b, m));
    }
    if forall|k: int| 0 <= k < m ==> !#[trigger] low_half(b, m)[k] {
        if forward {
            assert forall|k: int| 0 <= k < m implies ord(#[trigger] s1[lo + k], t) != Ordering::Greater by {
                assert(!l[k]);
            }
        } else {
            assert forall|k: int| 0 <= k < m implies ord(#[trigger] s1[lo + m + k], t) != Ordering::Greater by {
                assert(!r[k]);
            }
        }
    } else {
        if forward {
            assert forall|k: int| 0 <= k < m implies ord(#[trigger] s1[lo + m + k], t) == Ordering::Greater by {
                assert(r[k]);
            }
        } else {
            assert forall|k: int| 0 <= k < m implies ord(#[trigger] s1[lo + k], t) == Ordering::Greater by {
                assert(l[k]);
            }
        }
    }
}

/// After a compare-and-swap step on a bitonic run, both halves are bitonic and
/// every element of the front half may stand before every element of the back half.
pub proof fn lemma_step<T>(ord: spec_fn(T, T) -> Ordering, s0: Seq<T>, s1: Seq<T>, lo: int, n: int, forward: bool)
    requires
        is_total_order(ord),
        n >= 2,
        n % 2 == 0,
        0 <= lo,
        lo + n <= s0.len(),
        s1.len() == s0.len(),
        bitonic(ord, s0.subrange(lo, lo + n)),
        forall|k: int|
            0 <= k < n / 2 ==> s1[lo + k] == front(ord, s0[lo + k], #[trigger] s0[lo + n / 2 + k], forward)
                && s1[lo + n / 2 + k] == back(ord, s0[lo + k], s0[lo + n / 2 + k], forward),
    ensures
        bitonic(ord, s1.subrange(lo, lo + n / 2)),
        bitonic(ord, s1.subrange(lo + n / 2, lo + n)),
        forall|i: int, j: int|
            0 <= i < n / 2 && 0 <= j < n / 2 ==> in_order(
                ord,
                #[trigger] s1.subrange(lo, lo + n / 2)[i],
                #[trigger] s1.subrange(lo + n / 2, lo + n)[j],
                forward,
            ),
{
    let m = n / 2;
    assert forall|t: T| bitonic_bits(#[trigger] above(ord, s1.subrange(lo, lo + m), t)) by {
        lemma_step_at(ord, s0, s1, lo, n, forward, t);
    }
    assert forall|t: T| bitonic_bits(#[trigger] above(ord, s1.subrange(lo + m, lo + n), t)) by {
        lemma_step_at(ord, s0, s1, lo, n, forward, t);
    }
    assert forall|i: int, j: int| 0 <= i < m && 0 <= j < m implies in_order(
        ord,
        #[trigger] s1.subrange(lo, lo + m)[i],
        #[trigger] s1.subrange(lo + m, lo + n)[j],
        forward,
    ) by {
        let x = s1[lo + i];
        let y = s1[lo + m + j];
        assert(ord(x, x) == Ordering::Greater <==> ord(x, x) == Ordering::Less);
        assert(ord(y, y) == Ordering::Greater <==> ord(y, y) == Ordering::Less);
        assert(ord(x, y) == Ordering::Greater <==> ord(y, x) == Ordering::Less);
        assert(ord(y, x) == Ordering::Greater <==> ord(x, y) == Ordering::Less);
        if forward {
            lemma_step_at(ord, s0, s1, lo, n, forward, y);
            assert(ord(s1[lo + i], y) != Ordering::Greater || ord(s1[lo + m + j], y) == Ordering::Greater);
        } else {
            lemma_step_at(ord, s0, s1, lo, n, forward, x);
            assert(ord(s1[lo + m + j], x) != Ordering::Greater || ord(s1[lo + i], x) == Ordering::Greater);
        }
    }
}

} // verus!

//! Test data: reproducible pseudo-random vectors, and order checks.
use rand::distributions::Standard;
use rand::{Rng, SeedableRng};
use rand_pcg::Mcg128Xsl64;
use vstd::prelude::*;

verus! {

#[verifier::external_type_specification]
#[verifier::external_body]
pub struct ExMcg128Xsl64(Mcg128Xsl64);

/// Relies on `SeedableRng::from_seed` for `rand_pcg::Mcg128Xsl64` (`Pcg64Mcg`):
/// a generator whose state comes from the seed alone.
#[verifier::external_body]
fn seeded_generator(seed: [u8; 16]) -> Mcg128Xsl64 {
    Mcg128Xsl64::from_seed(seed)
}

/// Relies on `Rng::sample` with `rand::distributions::Standard`: the next `u32`
/// of the generator, which advances it.
#[verifier::external_body]
fn draw_u32(rng: &mut Mcg128Xsl64) -> u32 {
    rng.sample(Standard)
}

/// `n` pseudo-random integers, the same ones on every call: the generator starts
/// from a fixed seed.
pub fn new_u32_vec(n: usize) -> (v: Vec<u32>)
    ensures
        v@.len() == n,
{
    let mut rng = seeded_generator([0u8; 16]);
    let mut v: Vec<u32> = Vec::with_capacity(n);
    let mut i: usize = 0;
    while i < n
        invariant
            i <= n,
            v@.len() == i,
        decreases n - i,
    {
        v.push(draw_u32(&mut rng));
        i = i + 1;
    }
    v
}

/// Tells whether `x` is in ascending order.
pub fn is_sorted_ascending(x: &[u32]) -> (r: bool)
    ensures
        r == (forall|i: int, j: int| 0 <= i < j < x@.len() ==> x@[i] <= x@[j]),
{
    let mut k: usize = 1;
    while k < x.len()
        invariant
            1 <= k,
            forall|i: int, j: int| 0 <= i < j < k && j < x@.len() ==> x@[i] <= x@[j],
        decreases x@.len() - k,
    {
        if x[k - 1] > x[k] {
            return false;
        }
        k = k + 1;
    }
    true
}

/// Tells whether `x` is in descending order.
pub fn is_sorted_descending(x: &[u32]) -> (r: bool)
    ensures
        r == (forall|i: int, j: int| 0 <= i < j < x@.len() ==> x@[i] >= x@[j]),
{
    let mut k: usize = 1;
    while k < x.len()
        invariant
            1 <= k,
            forall|i: int, j: int| 0 <= i < j < k && j < x@.len() ==> x@[i] >= x@[j],
        decreases x@.len() - k,
    {
        if x[k - 1] < x[k] {
            return false;
        }
        k = k + 1;
    }
    true
}

} // verus!

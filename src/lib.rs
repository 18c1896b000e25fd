//! Bitonic sorting network over slices whose length is a power of two.

pub mod first;
pub mod fourth;
pub mod order;
pub mod threshold;
pub mod third;
pub mod utils;

use vstd::prelude::*;

verus! {

/// The final order that a sort call asks for.
#[derive(Clone, Copy, Debug, PartialEq, Eq, Structural)]
pub enum SortOrder {
    Ascending,
    Descending,
}

/// The only failure of a sort: the slice's length is not a power of two.
#[derive(Clone, Copy, Debug, PartialEq, Eq, Structural)]
pub struct NotPowerOfTwo {
    /// The length that was observed.
    pub len: usize,
}

/// `n` is 0, 1, or a power of two.
pub open spec fn is_pow2(n: nat) -> bool
    decreases n,
{
    if n <= 1 {
        true
    } else {
        n % 2 == 0 && is_pow2(n / 2)
    }
}

/// Tells whether `n` is a power of two; 0 and 1 count as such.
pub fn is_power_of_two(n: usize) -> (r: bool)
    ensures
        r == is_pow2(n as nat),
{
    let mut k: usize = n;
    while k > 1
        invariant
            is_pow2(k as nat) == is_pow2(n as nat),
        decreases k,
    {
        if k % 2 != 0 {
            return false;
        }
        k = k / 2;
    }
    true
}

} // verus!

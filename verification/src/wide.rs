//! A word of `N` 64-bit limbs, the carrier that lifts the one-register limit
//! of the bit-parallel algorithms.
use vstd::prelude::*;

verus! {

/// `N` little-endian limbs of 64 bits: limb 0 holds bits `0..64`.
#[derive(Clone, Copy, PartialEq, Eq, Debug, Hash)]
pub struct Wide<const N: usize>([u64; N]);

impl<const N: usize> Wide<N> {
    /// The limbs, least significant first.
    pub closed spec fn limbs_view(&self) -> Seq<u64> {
        self.0@
    }

    /// Wraps limbs, least significant first.
    pub fn from_limbs(limbs: [u64; N]) -> (r: Self)
        ensures
            r.limbs_view() == limbs@,
    {
        Wide(limbs)
    }

    /// The limbs, least significant first.
    pub fn limbs(self) -> (r: [u64; N])
        ensures
            r@ == self.limbs_view(),
    {
        self.0
    }
}

} // verus!

//! Set view: a word as a set of positions `0..BITS`.
use vstd::prelude::*;
use crate::model::{bit_of, group_bits, lemma_bits_eq, lemma_tz, lemma_top_bit, tz, top_bit};
use crate::word::Word;

verus! {

broadcast use group_bits;

/// The positions of the set bits of a word, taken lowest first by
/// [`next`](Positions::next) (TZCNT + BLSR per step) or highest first by
/// [`next_back`](Positions::next_back) (LZCNT).
pub struct Positions(pub u64);

impl Positions {
    /// The positions not yet taken.
    pub open spec fn remaining(&self) -> Set<int> {
        Set::new(|i: int| bit_of(self.0, i))
    }

    /// The lowest remaining position, taken.
    pub fn next(&mut self) -> (r: Option<u32>)
        ensures
            match r {
                None => old(self).0 == 0 && final(self).0 == 0,
                Some(p) => {
                    &&& bit_of(old(self).0, p as int)
                    &&& forall|j: int| j < p ==> !#[trigger] bit_of(old(self).0, j)
                    &&& forall|j: int| #[trigger] bit_of(final(self).0, j) == (bit_of(old(self).0, j) && j != p)
                },
            },
    {
        if self.0 == 0 {
            return None;
        }
        let p = self.0.trailing_zeros();
        proof {
            lemma_tz(self.0);
        }
        self.0 = Word::clear_lowest_set(self.0);
        Some(p)
    }

    /// The highest remaining position, taken.
    pub fn next_back(&mut self) -> (r: Option<u32>)
        ensures
            match r {
                None => old(self).0 == 0 && final(self).0 == 0,
                Some(p) => {
                    &&& bit_of(old(self).0, p as int)
                    &&& forall|j: int| j > p ==> !#[trigger] bit_of(old(self).0, j)
                    &&& forall|j: int| #[trigger] bit_of(final(self).0, j) == (bit_of(old(self).0, j) && j != p)
                },
            },
    {
        if self.0 == 0 {
            return None;
        }
        proof {
            lemma_top_bit(self.0);
        }
        let p = 63 - self.0.leading_zeros();
        self.0 = self.0 ^ (1u64 << p);
        Some(p)
    }

    /// How many positions remain.
    pub fn len(&self) -> (r: usize)
        ensures
            r == crate::model::popcount(self.0),
    {
        proof {
            crate::model::lemma_count_below_bounds(self.0, 64);
        }
        Word::count_ones(self.0) as usize
    }
}

} // verus!

//! Byte lanes: a register seen as independent bytes, lane 0 in the low
//! byte. [`U8x8`] is eight lanes in a word; [`U8x16`] is sixteen, as two
//! such halves.
use vstd::prelude::*;

verus! {

/// Eight lanes in a `u64`: lane `i` is bits `8 i .. 8 i + 8`.
#[derive(Clone, Copy, PartialEq, Eq, Structural, Debug)]
pub struct U8x8(u64);

impl View for U8x8 {
    type V = u64;

    closed spec fn view(&self) -> u64 {
        self.0
    }
}

impl U8x8 {
    /// Lanes from the word's bytes, lane 0 in the low byte.
    pub fn new(word: u64) -> (r: U8x8)
        ensures
            r@ == word,
    {
        U8x8(word)
    }

    /// The word.
    pub fn bits(self) -> (r: u64)
        ensures
            r == self@,
    {
        self.0
    }
}

/// Sixteen lanes as two [`U8x8`] halves: lanes `0..8`, then `8..16`.
#[derive(Clone, Copy, PartialEq, Eq, Structural, Debug)]
pub struct U8x16(U8x8, U8x8);

impl View for U8x16 {
    type V = (u64, u64);

    closed spec fn view(&self) -> (u64, u64) {
        (self.0@, self.1@)
    }
}

impl U8x16 {
    /// Lanes from two words: lanes `0..8` from `lo`, `8..16` from `hi`.
    pub fn from_halves(lo: u64, hi: u64) -> (r: U8x16)
        ensures
            r@ == (lo, hi),
    {
        U8x16(U8x8::new(lo), U8x8::new(hi))
    }

    /// The two words, lanes `0..8` and `8..16`.
    pub fn halves(self) -> (r: (u64, u64))
        ensures
            r == self@,
    {
        (self.0.bits(), self.1.bits())
    }
}

} // verus!

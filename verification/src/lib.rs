//! Space-filling curves, rank/select and edit distance, built from bit tricks.
use vstd::prelude::*;

pub mod model;
pub mod swar;
pub mod fill;
pub mod word;
pub mod set;
pub mod bits;
pub mod laws;
pub mod dilated;
pub mod affine;
pub mod permute;
pub mod grid;
pub mod rank9;
pub mod broadword;
pub mod slice;
pub mod codegen;
pub mod x86;
pub mod wide;
pub mod cover;
pub mod hilbert;
pub mod scan;
pub mod masks;
pub mod zcover;
pub mod myers;
pub mod curve;
pub mod lanes;

verus! {
} // verus!

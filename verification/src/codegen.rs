//! One instantiation of each primitive whose instructions are worth looking
//! at in the generated code: a plain function per call, with the call's own
//! contract.
use vstd::prelude::*;
use crate::bits::Bits;
use crate::model::{bit_of, parity_below};
use crate::word::{is_pdep, is_pext};

verus! {

/// `x.compact(mask)`: PEXT where the build has it.
pub fn cg_compact_u64(x: u64, mask: u64) -> (r: u64)
    ensures
        is_pext(x, mask, r),
{
    x.compact(mask)
}

/// `x.expand(mask)`: PDEP where the build has it.
pub fn cg_expand_u64(x: u64, mask: u64) -> (r: u64)
    ensures
        is_pdep(x, mask, r),
{
    x.expand(mask)
}

/// `x.select(k)`: one PDEP of `1 << k` and a TZCNT where the build has them.
pub fn cg_select_u64(x: u64, k: u32) -> (r: Option<u32>)
    ensures
        match r {
            None => k >= crate::model::popcount(x),
            Some(p) => k < crate::model::popcount(x) && bit_of(x, p as int) && crate::model::count_below(x, p as int) == k,
        },
{
    x.select(k)
}

/// `x.prefix_xor()`: a carry-less multiply by all ones where the build has
/// it.
pub fn cg_prefix_xor_u64(x: u64) -> (r: u64)
    ensures
        forall|i: int| 0 <= i < 64 ==> #[trigger] bit_of(r, i) == parity_below(x, i + 1),
{
    x.prefix_xor()
}

} // verus!

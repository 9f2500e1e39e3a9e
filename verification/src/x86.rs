//! The one BMI2 formula of the x86 paths that is more than its instruction:
//! select as a deposit and a count of trailing zeros.
use vstd::prelude::*;
use crate::model::{bit_of, count_below, group_bits, lemma_tz, popcount, tz};
use crate::word::{is_pdep, is_select, Word};

verus! {

broadcast use group_bits;

/// [`Word::select_lowest`] on `u64` as `trailing_zeros(pdep(1 << k, x))`,
/// 64 when there is no `k`-th set bit (Pandey, Bender and Johnson, 2017):
/// past the last set bit the deposit is empty.
pub fn select_u64(x: u64, k: u32) -> (r: u32)
    ensures
        is_select(x, k as int, r as int),
{
    let one: u64 = if k < 64 { 1u64 << k } else { 0 };
    proof {
        lemma_one_bit(k, one);
    }
    let d = Word::pdep(one, x);
    proof {
        lemma_tz(d);
        assert forall|i: int| #[trigger] bit_of(d, i) == (bit_of(x, i) && count_below(x, i) == k) by {
            if 0 <= i < 64 {
                crate::model::lemma_count_below_bounds(x, i);
                assert(bit_of(one, count_below(x, i) as int) == (count_below(x, i) == k));
            }
        }
        if k < popcount(x) {
            crate::model::lemma_select_exists(x, 64, k as int);
            let p = choose|p: int| 0 <= p < 64 && #[trigger] bit_of(x, p) && count_below(x, p) == k;
            assert(bit_of(d, p));
            assert(bit_of(d, tz(d)));
        } else {
            assert forall|i: int| 0 <= i < 64 implies !#[trigger] bit_of(d, i) by {
                if bit_of(x, i) && count_below(x, i) == k {
                    crate::model::lemma_count_below_mono(x, i, 64);
                }
            }
            crate::model::lemma_bits_eq(d, 0);
        }
    }
    d.trailing_zeros()
}

/// `1 << k` when it fits, else zero: its only set bit is `k`.
proof fn lemma_one_bit(k: u32, one: u64)
    requires
        one == if k < 64 { 1u64 << k } else { 0u64 },
    ensures
        forall|j: int| 0 <= j < 64 ==> #[trigger] bit_of(one, j) == (j == k),
{
    assert forall|j: int| 0 <= j < 64 implies #[trigger] bit_of(one, j) == (j == k) by {
        if k < 64 {
            crate::model::lemma_bit_single(k as u64, j);
        }
    }
}

} // verus!

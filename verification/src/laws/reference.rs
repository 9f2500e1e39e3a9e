//! Bit-loop reference semantics. Slow, obviously correct, the thing every
//! combinator is measured against.
use vstd::prelude::*;
use crate::bits::run_at;
use crate::model::{
    bit_of, count_below, group_bits, lemma_count_below_bounds, lemma_top_bit, parity_below,
    popcount, top_bit,
};
use crate::word::{is_pdep, is_pext, Word};

verus! {

broadcast use group_bits;

/// Bit `p` set iff bits `p..p + k` of `x` are all set.
pub fn run_starts(x: u64, k: u32) -> (r: u64)
    ensures
        forall|p: int| 0 <= p < 64 ==> #[trigger] bit_of(r, p) == run_at(x, p, k as int),
{
    let mut out: u64 = 0;
    let mut p: u32 = 0;
    while p < 64
        invariant
            p <= 64,
            forall|q: int| #[trigger] bit_of(out, q) == (0 <= q < p && run_at(x, q, k as int)),
        decreases 64 - p,
    {
        let inside = k <= 64 - p;
        if inside {
            let mut all = true;
            let mut b: u32 = p;
            while b < p + k
                invariant
                    p <= b <= p + k,
                    p + k <= 64,
                    all == forall|c: int| p <= c < b ==> #[trigger] bit_of(x, c),
                decreases p + k - b,
            {
                all = all && x.bit(b);
                b = b + 1;
            }
            if all {
                out = out | (1u64 << p);
            }
        }
        p = p + 1;
    }
    out
}

/// Bit `i` = parity of bits `0..=i`.
pub fn prefix_xor(x: u64) -> (r: u64)
    ensures
        forall|i: int| 0 <= i < 64 ==> #[trigger] bit_of(r, i) == parity_below(x, i + 1),
{
    let mut out: u64 = 0;
    let mut parity = false;
    let mut i: u32 = 0;
    while i < 64
        invariant
            i <= 64,
            parity == parity_below(x, i as int),
            forall|q: int| #[trigger] bit_of(out, q) == (0 <= q < i && parity_below(x, q + 1)),
        decreases 64 - i,
    {
        parity = parity != x.bit(i);
        if parity {
            out = out | (1u64 << i);
        }
        i = i + 1;
    }
    out
}

/// Every bit at or below the highest set bit.
pub fn suffix_or(x: u64) -> (r: u64)
    ensures
        forall|i: int| #[trigger] bit_of(r, i) == (0 <= i <= top_bit(x)),
{
    proof {
        lemma_top_bit(x);
    }
    let mut out: u64 = 0;
    let mut seen = false;
    let mut i: u32 = 64;
    while i > 0
        invariant
            i <= 64,
            -1 <= top_bit(x) < 64,
            seen == (top_bit(x) >= i),
            forall|q: int| #[trigger] bit_of(out, q) == (i <= q < 64 && q <= top_bit(x)),
        decreases i,
    {
        i = i - 1;
        proof {
            lemma_top_bit(x);
        }
        seen = seen || x.bit(i);
        if seen {
            out = out | (1u64 << i);
        }
    }
    out
}

/// Smallest `y > x` with `count_ones(y) == count_ones(x)`, by search.
pub fn next_same_popcount(x: u64) -> (r: Option<u64>)
    ensures
        x == 0 ==> r is None,
        r matches Some(y) ==> {
            &&& x < y
            &&& popcount(y) == popcount(x)
            &&& forall|z: u64| x < z < y ==> popcount(z) != popcount(x)
        },
        r is None && x != 0 ==> forall|z: u64| x < z ==> popcount(z) != popcount(x),
{
    if x == 0 {
        return None;
    }
    let n = Word::count_ones(x);
    let mut y = x;
    while y < 0xffff_ffff_ffff_ffff
        invariant
            x <= y,
            x != 0,
            n == popcount(x),
            forall|z: u64| x < z <= y ==> popcount(z) != popcount(x),
        decreases 0xffff_ffff_ffff_ffffu64 - y,
    {
        y = y + 1;
        if Word::count_ones(y) == n {
            return Some(y);
        }
    }
    None
}

/// `a <= b` without an order: no borrow out of `b - a`.
fn le(a: u64, b: u64) -> (r: bool)
    ensures
        r == (a <= b),
{
    let d = b.wrapping_sub(a);
    let borrow = (!b & a) | ((!b | a) & d);
    proof {
        lemma_borrow(a, b, d);
    }
    (borrow >> 63u64) & 1 == 0
}

proof fn lemma_borrow(a: u64, b: u64, d: u64)
    by (bit_vector)
    requires
        d == (if b < a { (b - a + 0x1_0000_0000_0000_0000) as u64 } else { (b - a) as u64 }),
    ensures
        ((((!b & a) | ((!b | a) & d)) >> 63u64) & 1 == 0) == (a <= b),
{
}

/// Smallest power of two `>= x`, `1` for zero, `None` if it does not fit.
pub fn round_up_pow2(x: u64) -> (r: Option<u64>)
    ensures
        r matches Some(p) ==> exists|e: u64|
            e < 64 && p == #[trigger] (1u64 << e) && x <= p && (e == 0 || (1u64 << ((e - 1) as u64)) < x),
        r is None ==> x > 0x8000_0000_0000_0000u64,
{
    let mut p: u64 = 1;
    let mut e: u64 = 0;
    proof {
        assert(1u64 << 0u64 == 1) by (bit_vector);
    }
    loop
        invariant
            e < 64,
            p == 1u64 << e,
            e == 0 || (1u64 << ((e - 1) as u64)) < x,
        decreases 64 - e,
    {
        if le(x, p) {
            return Some(p);
        }
        if p.bit(63) {
            proof {
                assert(e == 63) by {
                    assert(bit_of(1u64 << e, 63));
                }
                assert(1u64 << 63u64 == 0x8000_0000_0000_0000u64) by (bit_vector);
            }
            return None;
        }
        proof {
            assert(e < 63) by {
                if e == 63 {
                    assert(bit_of(1u64 << e, 63));
                }
            }
            assert((1u64 << e) << 1u32 == 1u64 << ((e + 1) as u64)) by (bit_vector)
                requires
                    e < 63,
            ;
        }
        p = p << 1u32;
        e = e + 1;
    }
}

/// Bit `i` = parity of bits `i..BITS` (Gray decode).
pub fn prefix_xor_from_top(x: u64) -> (r: u64)
    ensures
        forall|i: int|
            0 <= i < 64 ==> #[trigger] bit_of(r, i) == (parity_below(x, 64) != parity_below(x, i)),
{
    let mut out: u64 = 0;
    let mut parity = false;
    let mut i: u32 = 64;
    while i > 0
        invariant
            i <= 64,
            parity == (parity_below(x, 64) != parity_below(x, i as int)),
            forall|q: int|
                #[trigger] bit_of(out, q) == (i <= q < 64 && (parity_below(x, 64) != parity_below(
                    x,
                    q,
                ))),
        decreases i,
    {
        i = i - 1;
        parity = parity != x.bit(i);
        if parity {
            out = out | (1u64 << i);
        }
    }
    out
}

/// Position of the `k`-th set bit, by counting.
pub fn select(x: u64, k: u32) -> (r: Option<u32>)
    ensures
        match r {
            None => k >= popcount(x),
            Some(p) => k < popcount(x) && bit_of(x, p as int) && count_below(x, p as int) == k,
        },
{
    let mut seen: u32 = 0;
    let mut i: u32 = 0;
    while i < 64
        invariant
            i <= 64,
            seen == count_below(x, i as int),
            seen <= k,
        decreases 64 - i,
    {
        proof {
            lemma_count_below_bounds(x, i as int);
        }
        if x.bit(i) {
            if seen == k {
                proof {
                    crate::model::lemma_count_below_mono(x, i + 1, 64);
                }
                return Some(i);
            }
            seen = seen + 1;
        }
        i = i + 1;
    }
    None
}

/// PEXT by walking every position of the word.
pub fn pext(x: u64, m: u64) -> (r: u64)
    ensures
        is_pext(x, m, r),
{
    let mut out: u64 = 0;
    let mut k: u32 = 0;
    let mut i: u32 = 0;
    while i < 64
        invariant
            i <= 64,
            k == count_below(m, i as int),
            forall|q: int| #[trigger] bit_of(m, q) && q < i ==> bit_of(out, count_below(m, q) as int) == bit_of(x, q),
            forall|j: int| k <= j ==> !#[trigger] bit_of(out, j),
        decreases 64 - i,
    {
        proof {
            lemma_count_below_bounds(m, i as int);
        }
        if m.bit(i) {
            if x.bit(i) {
                out = out | (1u64 << k);
            }
            proof {
                assert forall|q: int| #[trigger] bit_of(m, q) && q < i + 1 implies bit_of(out, count_below(m, q) as int) == bit_of(x, q) by {
                    if q < i {
                        crate::model::lemma_count_below_mono(m, q, i as int);
                    }
                }
            }
            k = k + 1;
        }
        i = i + 1;
    }
    out
}

/// PDEP by walking every position of the word.
pub fn pdep(x: u64, m: u64) -> (r: u64)
    ensures
        is_pdep(x, m, r),
{
    let mut out: u64 = 0;
    let mut k: u32 = 0;
    let mut i: u32 = 0;
    while i < 64
        invariant
            i <= 64,
            k == count_below(m, i as int),
            forall|q: int| #[trigger] bit_of(out, q) == (q < i && bit_of(m, q) && bit_of(x, count_below(m, q) as int)),
        decreases 64 - i,
    {
        proof {
            lemma_count_below_bounds(m, i as int);
        }
        if m.bit(i) {
            if x.bit(k) {
                out = out | (1u64 << i);
            }
            k = k + 1;
        }
        i = i + 1;
    }
    out
}

} // verus!

//! The carrier: a fixed-width word viewed as a container of bits.
//!
//! [`Word`] exposes the primitive circuits every combinator is built from:
//! the Boolean operators, shifts, the carry chain, counts, and the
//! hardware-backed gathers and scans. `u64` is the carrier; the portable
//! definitions ([`compress_broadword`], [`expand_broadword`],
//! [`select_broadword64`]) carry the contracts the combinators rely on.
use vstd::prelude::*;
use crate::broadword::{
    byte_counts, count_le, lemma_bits8, lemma_byte_below, lemma_byte_counts, lemma_count_in_byte,
    lemma_lanes_le, lemma_mul_truncates, lemma_phase1, lemma_phase2, lemma_phase3, lemma_phase3_sums,
    lemma_spread, spread_bits,
};
use crate::swar::lane;
use crate::model::{
    bit_of, count_below, group_bits, lemma_count_below_diff, lemma_count_below_mono,
    lemma_floor_same, lemma_mod_add_le, lemma_add_one_bits, lemma_select_exists, lemma_select_unique, lemma_mod_double, lemma_succ_div, zeros_below, lemma_bits_eq, lemma_low_byte, lemma_parity_below_top,
    lemma_sub_one_bits, lemma_tz, low_mask, parity_below, popcount, top_bit, tz,
};

verus! {

broadcast use group_bits;

/// The number of ones of a word, by the hardware popcount.
#[verifier::external_body]
fn popcnt64(x: u64) -> (r: u32)
    ensures
        r == popcount(x),
{
    x.count_ones()
}

/// A fixed-width word of bits, bit 0 least significant.
pub trait Word: Sized + Copy {
    /// Width in bits.
    spec fn width() -> nat;

    /// Bitwise AND.
    fn and(self, other: Self) -> Self;
    /// Bitwise OR.
    fn or(self, other: Self) -> Self;
    /// Bitwise XOR.
    fn xor(self, other: Self) -> Self;
    /// Bitwise NOT.
    fn not(self) -> Self;
    /// Logical shift left by `n < BITS`.
    fn shl(self, n: u32) -> Self
        requires
            n < Self::width(),
    ;
    /// Logical shift right by `n < BITS`.
    fn shr(self, n: u32) -> Self
        requires
            n < Self::width(),
    ;
    /// The carry chain: wrapping addition.
    fn wrapping_add(self, other: Self) -> Self;
    /// The borrow chain: wrapping subtraction.
    fn wrapping_sub(self, other: Self) -> Self;
    /// Wrapping multiplication.
    fn wrapping_mul(self, other: Self) -> Self;
    /// The byte `b` repeated in every 8-bit lane.
    fn splat_byte(b: u8) -> Self;
    /// The lowest 8 bits.
    fn low_byte(self) -> u8;
    /// Number of set bits.
    fn count_ones(self) -> u32;
    /// Index of the lowest set bit; `BITS` when zero.
    fn trailing_zeros(self) -> u32;
    /// Number of leading zero bits; `BITS` when zero.
    fn leading_zeros(self) -> u32;
    /// Clears the lowest set bit; identity on zero.
    fn clear_lowest_set(self) -> Self;
    /// Parallel bit extract: the bits of `self` at the set positions of
    /// `mask`, gathered into the low bits in order.
    fn pext(self, mask: Self) -> Self;
    /// Parallel bit deposit: the low bits of `self` scattered to the set
    /// positions of `mask` in order.
    fn pdep(self, mask: Self) -> Self;
    /// Position of the `k`-th set bit (from 0), or `BITS` when there is none.
    fn select_lowest(self, k: u32) -> u32;
    /// Prefix XOR: bit `i` is the parity of bits `0..=i`.
    fn xor_scan(self) -> Self;
    /// Suffix XOR: bit `i` is the parity of bits `i..BITS`.
    fn xor_scan_down(self) -> Self;
    /// Mask with the `n` lowest bits set, `n <= BITS`.
    fn low_ones(n: u32) -> Self
        requires
            n <= Self::width(),
    ;
    /// `true` when no bit is set.
    fn is_zero(self) -> bool;
    /// `true` when bit `i < BITS` is set.
    fn bit(self, i: u32) -> bool
        requires
            i < Self::width(),
    ;
    /// `true` when an odd number of bits is set.
    fn parity(self) -> bool;
    /// Number of consecutive set bits from bit 0 upward.
    fn trailing_ones(self) -> u32;
    /// Number of consecutive set bits from the top downward.
    fn leading_ones(self) -> u32;
}

impl Word for u64 {
    open spec fn width() -> nat {
        64
    }

    fn and(self, other: u64) -> (r: u64)
        ensures
            r == self & other,
    {
        self & other
    }

    fn or(self, other: u64) -> (r: u64)
        ensures
            r == self | other,
    {
        self | other
    }

    fn xor(self, other: u64) -> (r: u64)
        ensures
            r == self ^ other,
    {
        self ^ other
    }

    fn not(self) -> (r: u64)
        ensures
            r == !self,
    {
        !self
    }

    fn shl(self, n: u32) -> (r: u64)
        ensures
            r == self << (n as u64),
    {
        self << n
    }

    fn shr(self, n: u32) -> (r: u64)
        ensures
            r == self >> (n as u64),
    {
        self >> n
    }

    fn wrapping_add(self, other: u64) -> (r: u64)
        ensures
            r as int == (self + other) % 0x1_0000_0000_0000_0000,
    {
        self.wrapping_add(other)
    }

    fn wrapping_sub(self, other: u64) -> (r: u64)
        ensures
            r as int == (self - other + 0x1_0000_0000_0000_0000) % 0x1_0000_0000_0000_0000,
    {
        self.wrapping_sub(other)
    }

    fn wrapping_mul(self, other: u64) -> (r: u64)
        ensures
            r as int == (self as int * other as int) % 0x1_0000_0000_0000_0000,
    {
        self.wrapping_mul(other)
    }

    fn splat_byte(b: u8) -> (r: u64)
        ensures
            r as int == b as int * 0x0101_0101_0101_0101,
    {
        (b as u64) * 0x0101_0101_0101_0101
    }

    fn low_byte(self) -> (r: u8)
        ensures
            r as int == self % 256,
    {
        proof {
            lemma_low_byte(self);
        }
        (self & 0xff) as u8
    }

    fn count_ones(self) -> (r: u32)
        ensures
            r == popcount(self),
    {
        popcnt64(self)
    }

    fn trailing_zeros(self) -> (r: u32)
        ensures
            r == tz(self),
    {
        self.trailing_zeros()
    }

    fn leading_zeros(self) -> (r: u32)
        ensures
            r == 63 - top_bit(self),
    {
        self.leading_zeros()
    }

    fn clear_lowest_set(self) -> (r: u64)
        ensures
            forall|i: int| #[trigger] bit_of(r, i) == (bit_of(self, i) && i != tz(self)),
    {
        let r = self & self.wrapping_sub(1);
        proof {
            lemma_tz(self);
            if self != 0 {
                lemma_sub_one_bits(self);
            } else {
                assert(r == 0) by {
                    assert forall|i: int| 0 <= i < 64 implies #[trigger] bit_of(r, i) == bit_of(
                        0u64,
                        i,
                    ) by {}
                    lemma_bits_eq(r, 0);
                }
            }
        }
        r
    }

    fn pext(self, mask: u64) -> (r: u64)
        ensures
            is_pext(self, mask, r),
    {
        compress_broadword(self, mask)
    }

    fn pdep(self, mask: u64) -> (r: u64)
        ensures
            is_pdep(self, mask, r),
    {
        expand_broadword(self, mask)
    }

    fn select_lowest(self, k: u32) -> (r: u32)
        ensures
            is_select(self, k as int, r as int),
    {
        select_broadword64(self, k)
    }

    fn xor_scan(self) -> (r: u64)
        ensures
            forall|i: int| 0 <= i < 64 ==> #[trigger] bit_of(r, i) == parity_below(self, i + 1),
    {
        xor_smear(self)
    }

    fn xor_scan_down(self) -> (r: u64)
        ensures
            forall|i: int|
                0 <= i < 64 ==> #[trigger] bit_of(r, i) == (parity_below(self, 64)
                    != parity_below(self, i)),
    {
        xor_smear_down(self)
    }

    fn low_ones(n: u32) -> (r: u64)
        ensures
            r == low_mask(n as int),
    {
        if n >= 64 {
            0xffff_ffff_ffff_ffff
        } else if n == 0 {
            0
        } else {
            proof {
                assert(1u64 << (n as u64) >= 1) by {
                    assert(bit_of(1u64 << (n as u64), n as int));
                    if 1u64 << (n as u64) == 0 {
                        assert(!bit_of(0u64, n as int));
                    }
                }
            }
            (1u64 << n) - 1
        }
    }

    fn is_zero(self) -> (r: bool)
        ensures
            r == (self == 0),
    {
        self == 0
    }

    fn bit(self, i: u32) -> (r: bool)
        ensures
            r == bit_of(self, i as int),
    {
        (self >> i) & 1 == 1
    }

    fn parity(self) -> (r: bool)
        ensures
            r == (popcount(self) % 2 == 1),
    {
        popcnt64(self) % 2 == 1
    }

    fn trailing_ones(self) -> (r: u32)
        ensures
            r == tz(!self),
    {
        (!self).trailing_zeros()
    }

    fn leading_ones(self) -> (r: u32)
        ensures
            r == 63 - top_bit(!self),
    {
        (!self).leading_zeros()
    }
}

/// `r` holds the bits of `x` at the set positions of `m`, in order, in its
/// low `popcount(m)` bits, and nothing above.
pub open spec fn is_pext(x: u64, m: u64, r: u64) -> bool {
    &&& forall|i: int| #[trigger] bit_of(m, i) ==> bit_of(r, count_below(m, i) as int) == bit_of(x, i)
    &&& forall|j: int| popcount(m) <= j ==> !#[trigger] bit_of(r, j)
}

/// `r` holds, at the `j`-th set position of `m`, bit `j` of `x`, and
/// nothing outside `m`.
pub open spec fn is_pdep(x: u64, m: u64, r: u64) -> bool {
    forall|i: int| #[trigger] bit_of(r, i) == (bit_of(m, i) && bit_of(x, count_below(m, i) as int))
}

/// `p` is the position of set bit number `k` of `x`, or 64 when `x` has at
/// most `k` set bits.
pub open spec fn is_select(x: u64, k: int, p: int) -> bool {
    if k < popcount(x) {
        bit_of(x, p) && count_below(x, p) == k
    } else {
        p == 64
    }
}

/// Log-depth XOR smear: `x ^= x << 1; x ^= x << 2; …`.
pub fn xor_smear(x: u64) -> (r: u64)
    ensures
        forall|i: int| 0 <= i < 64 ==> #[trigger] bit_of(r, i) == parity_below(x, i + 1),
{
    let mut y = x;
    let mut s: u64 = 1;
    while s < 64
        invariant
            1 <= s < 128,
            forall|i: int|
                0 <= i < 64 ==> #[trigger] bit_of(y, i) == (parity_below(x, i + 1) != parity_below(
                    x,
                    i + 1 - s,
                )),
        decreases 128 - s,
    {
        let z = y ^ (y << s);
        proof {
            assert forall|i: int| 0 <= i < 64 implies #[trigger] bit_of(z, i) == (parity_below(
                x,
                i + 1,
            ) != parity_below(x, i + 1 - 2 * s)) by {
                if i >= s {
                    assert(i - s + 1 - s == i + 1 - 2 * s);
                } else {
                    assert(parity_below(x, i + 1 - s) == false);
                    assert(parity_below(x, i + 1 - 2 * s) == false);
                }
            }
        }
        y = z;
        s = s * 2;
    }
    proof {
        assert forall|i: int| 0 <= i < 64 implies #[trigger] bit_of(y, i) == parity_below(
            x,
            i + 1,
        ) by {
            assert(parity_below(x, i + 1 - s) == false);
        }
    }
    y
}

/// Log-depth XOR smear downward: `x ^= x >> 1; x ^= x >> 2; …`.
pub fn xor_smear_down(x: u64) -> (r: u64)
    ensures
        forall|i: int|
            0 <= i < 64 ==> #[trigger] bit_of(r, i) == (parity_below(x, 64) != parity_below(x, i)),
{
    let mut y = x;
    let mut s: u64 = 1;
    proof {
        assert forall|i: int| 0 <= i < 64 implies #[trigger] bit_of(y, i) == (parity_below(
            x,
            i + s,
        ) != parity_below(x, i)) by {
            if i + s >= 64 {
                lemma_parity_below_top(x, i + s);
            }
        }
    }
    while s < 64
        invariant
            1 <= s < 128,
            forall|i: int|
                0 <= i < 64 ==> #[trigger] bit_of(y, i) == (parity_below(x, i + s) != parity_below(
                    x,
                    i,
                )),
        decreases 128 - s,
    {
        let z = y ^ (y >> s);
        proof {
            assert forall|i: int| 0 <= i < 64 implies #[trigger] bit_of(z, i) == (parity_below(
                x,
                i + 2 * s,
            ) != parity_below(x, i)) by {
                if i + s < 64 {
                } else {
                    lemma_parity_below_top(x, i + s);
                    lemma_parity_below_top(x, i + 2 * s);
                }
            }
        }
        y = z;
        s = s * 2;
    }
    proof {
        assert forall|i: int| 0 <= i < 64 implies #[trigger] bit_of(y, i) == (parity_below(x, 64)
            != parity_below(x, i)) by {
            lemma_parity_below_top(x, i + s);
        }
    }
    y
}

/// Where a selected bit at `p` of `m` sits after the moves of the rounds
/// below `d`: `p` less the zeros below it, modulo `d`.
pub open spec fn moved(m: u64, p: int, d: int) -> int {
    p - zeros_below(m, p) % d
}

proof fn lemma_moved_facts(m: u64, p: int, d: int)
    requires
        d > 0,
        bit_of(m, p),
    ensures
        0 <= zeros_below(m, p) <= p,
        0 <= p - zeros_below(m, p) <= moved(m, p, d) <= p,
        zeros_below(m, moved(m, p, d)) / d == zeros_below(m, p) / d,
{
    lemma_count_below_diff(m, 0, p);
    let c = zeros_below(m, p);
    vstd::arithmetic::div_mod::lemma_mod_bound(c, d);
    vstd::arithmetic::div_mod::lemma_mod_decreases(c as nat, d as nat);
    let q = moved(m, p, d);
    lemma_count_below_diff(m, q, p);
    lemma_floor_same(c, zeros_below(m, q), d);
}

proof fn lemma_moved_strict(m: u64, p: int, q: int, d: int)
    requires
        d > 0,
        bit_of(m, p),
        bit_of(m, q),
        p < q,
    ensures
        moved(m, p, d) < moved(m, q, d),
{
    lemma_count_below_diff(m, p, q);
    lemma_count_below_diff(m, 0, p);
    let z = zeros_below(m, q) - zeros_below(m, p);
    lemma_mod_add_le(zeros_below(m, p), z, d);
}

proof fn lemma_marker_parity(m: u64, mk: u64, d: int, n: int)
    requires
        d > 0,
        1 <= n <= 64,
        forall|q: int|
            0 <= q < 64 ==> #[trigger] bit_of(mk, q) == (1 <= q && !bit_of(m, q - 1) && zeros_below(
                m,
                q,
            ) % d == 0),
    ensures
        parity_below(mk, n) == ((zeros_below(m, n - 1) / d) % 2 == 1),
    decreases n,
{
    if n == 1 {
        vstd::arithmetic::div_mod::lemma_div_of0(d);
        assert(!bit_of(mk, 0));
        assert(zeros_below(m, 0) == 0);
        assert(parity_below(mk, 0) == false);
        assert(parity_below(mk, 1) == false);
    } else {
        lemma_marker_parity(m, mk, d, n - 1);
        lemma_count_below_diff(m, 0, n - 2);
        let c = zeros_below(m, n - 2);
        assert(parity_below(mk, n) == (parity_below(mk, n - 1) != bit_of(mk, n - 1)));
        assert(count_below(m, n - 1) == count_below(m, n - 2) + if bit_of(m, n - 2) {
            1nat
        } else {
            0nat
        });
        if bit_of(m, n - 2) {
            assert(zeros_below(m, n - 1) == c);
            assert(!bit_of(mk, n - 1));
        } else {
            assert(zeros_below(m, n - 1) == c + 1);
            lemma_succ_div(c, d);
            vstd::arithmetic::div_mod::lemma_mod_pos_bound(c / d, 2);
            vstd::arithmetic::div_mod::lemma_mod_pos_bound(c / d + 1, 2);
            vstd::arithmetic::div_mod::lemma_add_mod_noop(c / d, 1, 2);
            assert(bit_of(mk, n - 1) == ((c + 1) % d == 0));
            if (c + 1) % d == 0 {
                assert((c + 1) / d == c / d + 1);
                assert(((c + 1) / d) % 2 == 1 <==> (c / d) % 2 == 0);
            } else {
                assert((c + 1) / d == c / d);
            }
        }
    }
}

/// Portable PEXT: compress by parallel suffix (Hacker's Delight 7-4).
///
/// `log₂ BITS` rounds. Round `i` moves every selected bit right by `2^i`
/// exactly when the number of unselected bits below it has bit `i` set;
/// that count's parity, for every bit at once, is one prefix-XOR scan of
/// the "zeros to the right" mask. Constant time, no table.
pub fn compress_broadword(x: u64, mask: u64) -> (r: u64)
    ensures
        is_pext(x, mask, r),
{
    let ghost m0 = mask;
    let ghost x0 = x;
    let mut mask = mask;
    let mut x = x & mask;
    // zeros to the right of each bit
    let mut mk = (!mask) << 1u64;
    let mut s: u64 = 1;
    proof {
        assert forall|q: int| 0 <= q < 64 implies #[trigger] bit_of(mk, q) == (1 <= q && !bit_of(
            m0,
            q - 1,
        ) && zeros_below(m0, q) % 1 == 0) by {}
        assert forall|p: int| bit_of(m0, p) implies moved(m0, p, 1) == p by {}
    }
    while s < 64
        invariant
            1 <= s < 128,
            forall|q: int|
                0 <= q < 64 ==> #[trigger] bit_of(mk, q) == (1 <= q && !bit_of(m0, q - 1)
                    && zeros_below(m0, q) % (s as int) == 0),
            forall|p: int| #[trigger] bit_of(m0, p) ==> bit_of(mask, moved(m0, p, s as int)),
            forall|r: int|
                #[trigger] bit_of(mask, r) ==> exists|p: int|
                    #[trigger] bit_of(m0, p) && moved(m0, p, s as int) == r,
            forall|p: int|
                #[trigger] bit_of(m0, p) ==> bit_of(x, moved(m0, p, s as int)) == bit_of(x0, p),
            forall|r: int| #[trigger] bit_of(x, r) ==> bit_of(mask, r),
        decreases 128 - s,
    {
        let ghost d = s as int;
        // parity of those zeros, per bit
        let mp = Word::xor_scan(mk);
        // bits that move this round
        let mv = mp & mask;
        let mask2 = (mask ^ mv) | (mv >> s);
        let t = x & mv;
        let x2 = (x ^ t) | (t >> s);
        let mk2 = mk & !mp;
        proof {
            // the marker parity is bit `d` of the zeros below
            assert forall|q: int| 0 <= q < 64 implies #[trigger] bit_of(mp, q) == ((zeros_below(
                m0,
                q,
            ) / d) % 2 == 1) by {
                lemma_marker_parity(m0, mk, d, q + 1);
            }
            // a selected bit moves iff bit `d` of its zero count is set
            assert forall|p: int| #[trigger] bit_of(m0, p) implies bit_of(mv, moved(m0, p, d)) == ((
            zeros_below(m0, p) / d) % 2 == 1) by {
                lemma_moved_facts(m0, p, d);
            }
            assert forall|p: int| #[trigger] bit_of(m0, p) implies moved(m0, p, 2 * d) == moved(
                m0,
                p,
                d,
            ) - if (zeros_below(m0, p) / d) % 2 == 1 {
                d
            } else {
                0
            } && moved(m0, p, 2 * d) >= 0 by {
                lemma_moved_facts(m0, p, d);
                lemma_moved_facts(m0, p, 2 * d);
                lemma_mod_double(zeros_below(m0, p), d);
            }
            // only the images of selected bits are in the mask, one each
            assert forall|r: int| #[trigger] bit_of(mv, r) implies exists|p: int|
                #[trigger] bit_of(m0, p) && moved(m0, p, d) == r && (zeros_below(m0, p) / d) % 2
                    == 1 by {
                let p = choose|p: int| #[trigger] bit_of(m0, p) && moved(m0, p, d) == r;
            }
            assert forall|q: int| 0 <= q < 64 implies #[trigger] bit_of(mk2, q) == (1 <= q
                && !bit_of(m0, q - 1) && zeros_below(m0, q) % (2 * d) == 0) by {
                if 1 <= q {
                    lemma_count_below_diff(m0, 0, q);
                    lemma_mod_double(zeros_below(m0, q), d);
                }
            }
            assert forall|p: int| #[trigger] bit_of(m0, p) implies bit_of(
                mask2,
                moved(m0, p, 2 * d),
            ) && bit_of(x2, moved(m0, p, 2 * d)) == bit_of(x0, p) by {
                let r = moved(m0, p, d);
                let r2 = moved(m0, p, 2 * d);
                if (zeros_below(m0, p) / d) % 2 == 1 {
                    assert(bit_of(mv >> (d as u64), r2));
                    assert(bit_of(t >> (d as u64), r2) == bit_of(x, r));
                    if bit_of(x ^ t, r2) {
                        assert(bit_of(mask, r2) && !bit_of(mv, r2));
                        let p2 = choose|p2: int| #[trigger] bit_of(m0, p2) && moved(m0, p2, d) == r2;
                        assert(moved(m0, p2, 2 * d) == r2);
                        if p2 < p {
                            lemma_moved_strict(m0, p2, p, 2 * d);
                        } else if p < p2 {
                            lemma_moved_strict(m0, p, p2, 2 * d);
                        }
                    }
                } else {
                    assert(r2 == r);
                    assert(!bit_of(mv, r));
                    if bit_of(t >> (d as u64), r) {
                        let r3 = r + d;
                        assert(bit_of(mv, r3));
                        let p3 = choose|p3: int|
                            #[trigger] bit_of(m0, p3) && moved(m0, p3, d) == r3 && (zeros_below(
                                m0,
                                p3,
                            ) / d) % 2 == 1;
                        assert(moved(m0, p3, 2 * d) == r);
                        if p3 < p {
                            lemma_moved_strict(m0, p3, p, 2 * d);
                        } else if p < p3 {
                            lemma_moved_strict(m0, p, p3, 2 * d);
                        }
                    }
                }
            }
            assert forall|r: int| #[trigger] bit_of(mask2, r) implies exists|p: int|
                #[trigger] bit_of(m0, p) && moved(m0, p, 2 * d) == r by {
                if bit_of(mask ^ mv, r) {
                    let p = choose|p: int| #[trigger] bit_of(m0, p) && moved(m0, p, d) == r;
                    assert(moved(m0, p, 2 * d) == r);
                } else {
                    assert(bit_of(mv, r + d));
                    let p = choose|p: int|
                        #[trigger] bit_of(m0, p) && moved(m0, p, d) == r + d && (zeros_below(
                            m0,
                            p,
                        ) / d) % 2 == 1;
                    assert(moved(m0, p, 2 * d) == r);
                }
            }
            assert forall|r: int| #[trigger] bit_of(x2, r) implies bit_of(mask2, r) by {
                if bit_of(x ^ t, r) {
                } else {
                    assert(bit_of(t, r + d));
                }
            }
        }
        mask = mask2;
        x = x2;
        mk = mk2;
        s = s * 2;
    }
    proof {
        assert forall|p: int| #[trigger] bit_of(m0, p) implies moved(m0, p, s as int) == count_below(
            m0,
            p,
        ) && count_below(m0, p) < popcount(m0) by {
            lemma_moved_facts(m0, p, s as int);
            lemma_count_below_diff(m0, 0, p);
            vstd::arithmetic::div_mod::lemma_small_mod(zeros_below(m0, p) as nat, s as nat);
            lemma_count_below_mono(m0, p, 64);
        }
        assert forall|j: int| popcount(m0) <= j implies !#[trigger] bit_of(x, j) by {
            if bit_of(x, j) {
                let p = choose|p: int| #[trigger] bit_of(m0, p) && moved(m0, p, s as int) == j;
            }
        }
    }
    x
}

/// The bits that round `d` of the compression moves: the images of the
/// selected bits whose zero count has bit `d` set.
pub open spec fn is_moves(m: u64, d: int, mv: u64) -> bool {
    &&& forall|p: int|
        #[trigger] bit_of(m, p) ==> bit_of(mv, moved(m, p, d)) == ((zeros_below(m, p) / d) % 2 == 1)
    &&& forall|r: int|
        #[trigger] bit_of(mv, r) ==> exists|p: int|
            #[trigger] bit_of(m, p) && moved(m, p, d) == r && (zeros_below(m, p) / d) % 2 == 1
}

/// Portable PDEP: expand by parallel suffix (Hacker's Delight 7-5).
///
/// The move masks of [`compress_broadword`], computed forward and applied
/// in reverse with left shifts. Constant time.
pub fn expand_broadword(x: u64, mask: u64) -> (r: u64)
    ensures
        is_pdep(x, mask, r),
{
    let ghost m0 = mask;
    let mut moves = [0u64; 16];
    let mut m = mask;
    let mut mk = (!mask) << 1u64;
    let mut rounds: usize = 0;
    let mut s: u64 = 1;
    proof {
        assert forall|q: int| 0 <= q < 64 implies #[trigger] bit_of(mk, q) == (1 <= q && !bit_of(
            m0,
            q - 1,
        ) && zeros_below(m0, q) % 1 == 0) by {}
        assert forall|p: int| bit_of(m0, p) implies moved(m0, p, 1) == p by {}
        vstd::arithmetic::power2::lemma2_to64();
    }
    while s < 64
        invariant
            1 <= s < 128,
            rounds <= 6,
            s == vstd::arithmetic::power2::pow2(rounds as nat),
            forall|q: int|
                0 <= q < 64 ==> #[trigger] bit_of(mk, q) == (1 <= q && !bit_of(m0, q - 1)
                    && zeros_below(m0, q) % (s as int) == 0),
            forall|p: int| #[trigger] bit_of(m0, p) ==> bit_of(m, moved(m0, p, s as int)),
            forall|r: int|
                #[trigger] bit_of(m, r) ==> exists|p: int|
                    #[trigger] bit_of(m0, p) && moved(m0, p, s as int) == r,
            forall|j: int|
                0 <= j < rounds ==> is_moves(
                    m0,
                    vstd::arithmetic::power2::pow2(j as nat) as int,
                    #[trigger] moves[j],
                ),
        decreases 128 - s,
    {
        let ghost d = s as int;
        let mp = Word::xor_scan(mk);
        let mv = mp & m;
        let m2 = (m ^ mv) | (mv >> s);
        let mk2 = mk & !mp;
        proof {
            assert forall|q: int| 0 <= q < 64 implies #[trigger] bit_of(mp, q) == ((zeros_below(
                m0,
                q,
            ) / d) % 2 == 1) by {
                lemma_marker_parity(m0, mk, d, q + 1);
            }
            assert forall|p: int| #[trigger] bit_of(m0, p) implies bit_of(mv, moved(m0, p, d)) == ((
            zeros_below(m0, p) / d) % 2 == 1) by {
                lemma_moved_facts(m0, p, d);
            }
            assert forall|p: int| #[trigger] bit_of(m0, p) implies moved(m0, p, 2 * d) == moved(
                m0,
                p,
                d,
            ) - if (zeros_below(m0, p) / d) % 2 == 1 {
                d
            } else {
                0
            } && moved(m0, p, 2 * d) >= 0 by {
                lemma_moved_facts(m0, p, d);
                lemma_moved_facts(m0, p, 2 * d);
                lemma_mod_double(zeros_below(m0, p), d);
            }
            assert forall|r: int| #[trigger] bit_of(mv, r) implies exists|p: int|
                #[trigger] bit_of(m0, p) && moved(m0, p, d) == r && (zeros_below(m0, p) / d) % 2
                    == 1 by {
                let p = choose|p: int| #[trigger] bit_of(m0, p) && moved(m0, p, d) == r;
            }
            assert(is_moves(m0, d, mv));
            assert forall|q: int| 0 <= q < 64 implies #[trigger] bit_of(mk2, q) == (1 <= q
                && !bit_of(m0, q - 1) && zeros_below(m0, q) % (2 * d) == 0) by {
                if 1 <= q {
                    lemma_count_below_diff(m0, 0, q);
                    lemma_mod_double(zeros_below(m0, q), d);
                }
            }
            assert forall|p: int| #[trigger] bit_of(m0, p) implies bit_of(
                m2,
                moved(m0, p, 2 * d),
            ) by {
                let r = moved(m0, p, d);
                let r2 = moved(m0, p, 2 * d);
                if (zeros_below(m0, p) / d) % 2 == 1 {
                    assert(bit_of(mv >> (d as u64), r2));
                }
            }
            assert forall|r: int| #[trigger] bit_of(m2, r) implies exists|p: int|
                #[trigger] bit_of(m0, p) && moved(m0, p, 2 * d) == r by {
                if bit_of(m ^ mv, r) {
                    let p = choose|p: int| #[trigger] bit_of(m0, p) && moved(m0, p, d) == r;
                    assert(moved(m0, p, 2 * d) == r);
                } else {
                    assert(bit_of(mv, r + d));
                    let p = choose|p: int|
                        #[trigger] bit_of(m0, p) && moved(m0, p, d) == r + d && (zeros_below(
                            m0,
                            p,
                        ) / d) % 2 == 1;
                    assert(moved(m0, p, 2 * d) == r);
                }
            }
            vstd::arithmetic::power2::lemma_pow2_unfold((rounds + 1) as nat);
            vstd::arithmetic::power2::lemma2_to64();
            if rounds > 6 {
                vstd::arithmetic::power2::lemma_pow2_strictly_increases(6, rounds as nat);
            }
        }
        moves[rounds] = mv;
        m = m2;
        mk = mk2;
        rounds = rounds + 1;
        s = s * 2;
    }
    let mut x = x;
    let ghost x0 = x;
    let mut i = rounds;
    proof {
        vstd::arithmetic::power2::lemma2_to64();
        assert(rounds == 6) by {
            if rounds < 6 {
                vstd::arithmetic::power2::lemma_pow2_strictly_increases(rounds as nat, 6);
            }
        }
        assert forall|p: int| #[trigger] bit_of(m0, p) implies moved(m0, p, s as int)
            == count_below(m0, p) by {
            lemma_moved_facts(m0, p, s as int);
            lemma_count_below_diff(m0, 0, p);
            vstd::arithmetic::div_mod::lemma_small_mod(zeros_below(m0, p) as nat, s as nat);
        }
    }
    while i > 0
        invariant
            i <= rounds,
            rounds == 6,
            forall|j: int|
                0 <= j < rounds ==> is_moves(
                    m0,
                    vstd::arithmetic::power2::pow2(j as nat) as int,
                    #[trigger] moves[j],
                ),
            forall|p: int|
                #[trigger] bit_of(m0, p) ==> bit_of(
                    x,
                    moved(m0, p, vstd::arithmetic::power2::pow2(i as nat) as int),
                ) == bit_of(x0, count_below(m0, p) as int),
        decreases i,
    {
        i = i - 1;
        let mv = moves[i];
        let ghost d = vstd::arithmetic::power2::pow2(i as nat) as int;
        proof {
            vstd::arithmetic::power2::lemma_pow2_unfold((i + 1) as nat);
            vstd::arithmetic::power2::lemma2_to64();
            if i < 5 {
                vstd::arithmetic::power2::lemma_pow2_strictly_increases(i as nat, 5);
            }
            assert(is_moves(m0, d, mv));
        }
        let sh: u64 = 1u64 << (i as u64);
        proof {
            vstd::bits::lemma_u64_shl_is_mul(1, i as u64);
            assert(sh == d);
        }
        let x2 = (x & !mv) | ((x << sh) & mv);
        proof {
            assert forall|p: int| #[trigger] bit_of(m0, p) implies bit_of(
                x2,
                moved(m0, p, d),
            ) == bit_of(x0, count_below(m0, p) as int) by {
                lemma_moved_facts(m0, p, d);
                lemma_moved_facts(m0, p, 2 * d);
                lemma_mod_double(zeros_below(m0, p), d);
                let q = moved(m0, p, d);
                if (zeros_below(m0, p) / d) % 2 == 1 {
                    assert(bit_of(mv, q));
                    assert(moved(m0, p, 2 * d) == q - d);
                } else {
                    assert(moved(m0, p, 2 * d) == q);
                    if bit_of(mv, q) {
                        let p2 = choose|p2: int|
                            #[trigger] bit_of(m0, p2) && moved(m0, p2, d) == q && (zeros_below(
                                m0,
                                p2,
                            ) / d) % 2 == 1;
                        if p2 < p {
                            lemma_moved_strict(m0, p2, p, d);
                        } else if p < p2 {
                            lemma_moved_strict(m0, p, p2, d);
                        }
                    }
                }
            }
        }
        x = x2;
    }
    let r = x & mask;
    proof {
        assert(vstd::arithmetic::power2::pow2(0) == 1) by {
            vstd::arithmetic::power2::lemma2_to64();
        }
        assert forall|i: int| #[trigger] bit_of(r, i) == (bit_of(m0, i) && bit_of(
            x0,
            count_below(m0, i) as int,
        )) by {
            if bit_of(m0, i) {
                assert(moved(m0, i, 1) == i);
            }
        }
    }
    r
}

/// Position of set bit number `k` (0-indexed) of `x` by broadword
/// arithmetic (Vigna): per-byte popcounts, byte prefix sums by one
/// multiply, then the same compare inside the byte. 64 when
/// `k >= count_ones(x)`.
pub fn select_broadword64(x: u64, k: u32) -> (r: u32)
    ensures
        is_select(x, k as int, r as int),
{
    // Phase 1: per-byte popcounts, then per-byte prefix sums by
    // multiplying with 0x0101…: byte j = popcount of bytes 0..=j.
    proof {
        lemma_byte_counts(x, 0);
    }
    let mut s = x - ((x >> 1u64) & 0x5555_5555_5555_5555u64);
    s = (s & 0x3333_3333_3333_3333u64) + ((s >> 2u64) & 0x3333_3333_3333_3333u64);
    s = (s + (s >> 4u64)) & 0x0F0F_0F0F_0F0F_0F0Fu64;
    let byte_sums = Word::wrapping_mul(s, 0x0101_0101_0101_0101u64);
    proof {
        assert(s == byte_counts(x));
        lemma_mul_truncates(s, 0x0101_0101_0101_0101u64);
        lemma_phase1(x, s, byte_sums);
    }
    // The top byte is the whole count.
    if (k as u64) >= byte_sums >> 56u64 {
        proof {
            lemma_byte_below(byte_sums, 0);
        }
        return 64;
    }
    // Phase 2: the byte holding the answer is the number of bytes whose
    // prefix sum is <= k.
    proof {
        lemma_byte_below(byte_sums, 0);
        crate::model::lemma_count_below_bounds(x, 64);
        lemma_lanes_le(byte_sums, k as u64, 0);
    }
    let k_step_8 = (k as u64) * 0x0101_0101_0101_0101u64;
    let geq_k = ((k_step_8 | 0x8080_8080_8080_8080u64) - byte_sums) & 0x8080_8080_8080_8080u64;
    let ghost c = |j: int| count_below(x, 8 * j + 8) as int;
    proof {
        lemma_phase2(x, k as int, byte_sums, geq_k, c);
    }
    let ghost jb = count_le(c, k as int, 8);
    let place = popcnt64(geq_k) * 8;
    proof {
        lemma_byte_below(byte_sums, jb as u64);
        assert(place == 8 * jb);
        if jb > 0 {
            assert(c(jb - 1) <= k);
            assert(lane(byte_sums, jb - 1) == count_below(x, 8 * jb));
        }
    }
    let byte_rank = k - (((byte_sums << 8u64) >> place) & 0xff) as u32;
    // Phase 3: the same trick inside the byte.
    let byte = (x >> place) & 0xff;
    proof {
        crate::model::lemma_low_byte(x >> (place as u64));
        lemma_spread(byte, 0);
        assert(byte == lane(x, jb));
        assert(c(jb) > k);
    }
    let mut spread = (byte * 0x0101_0101_0101_0101u64) & 0x8040_2010_0804_0201u64;
    spread = spread | (spread >> 4u64);
    spread = spread | (spread >> 2u64);
    spread = spread | (spread >> 1u64);
    let ones = spread & 0x0101_0101_0101_0101u64;
    let bit_sums = Word::wrapping_mul(ones, 0x0101_0101_0101_0101u64);
    proof {
        assert(ones == spread_bits(byte));
        lemma_mul_truncates(ones, 0x0101_0101_0101_0101u64);
        lemma_phase3_sums(byte, ones, bit_sums);
        lemma_count_in_byte(x, jb, 8);
        lemma_bits8(byte);
        lemma_lanes_le(bit_sums, byte_rank as u64, 0);
    }
    let byte_rank_step_8 = (byte_rank as u64) * 0x0101_0101_0101_0101u64;
    let geq_r = ((byte_rank_step_8 | 0x8080_8080_8080_8080u64) - bit_sums) & 0x8080_8080_8080_8080u64;
    let q = popcnt64(geq_r);
    proof {
        lemma_phase3(x, k as int, jb, byte, byte_rank as int, bit_sums, geq_r);
    }
    place + q
}

} // verus!

verus! {

/// The lowest clear bit is where `tz(!x)` says.
proof fn lemma_tz_is(x: u64, t: int)
    requires
        0 <= t < 64,
        bit_of(x, t),
        forall|j: int| 0 <= j < t ==> !#[trigger] bit_of(x, j),
    ensures
        tz(x) == t,
{
    lemma_tz(x);
    if tz(x) < t {
        assert(bit_of(x, tz(x)));
    } else if tz(x) > t {
        assert(!bit_of(x, t));
    }
}

/// Adding one below a mask's holes: filling the gaps with ones makes the
/// carry tunnel through them, so the masked result is the compacted value
/// plus one.
pub proof fn lemma_compact_increment(s: u64, m: u64, c: u64)
    requires
        s & !m == 0,
        s != m,
        is_pext(s, m, c),
    ensures
        s | !m != 0xffff_ffff_ffff_ffffu64,
        c != 0xffff_ffff_ffff_ffffu64,
        is_pext((((s | !m) + 1) as u64) & m, m, (c + 1) as u64),
{
    let z = s | !m;
    assert(forall|i: int| #[trigger] bit_of(s, i) ==> bit_of(m, i)) by {
        assert forall|i: int| #[trigger] bit_of(s, i) implies bit_of(m, i) by {
            assert(!bit_of(s & !m, i));
        }
    }
    // some bit of the mask is missing from `s`
    assert(exists|i: int| #[trigger] bit_of(m, i) && !bit_of(s, i)) by {
        if forall|i: int| #[trigger] bit_of(m, i) ==> bit_of(s, i) {
            assert forall|i: int| 0 <= i < 64 implies #[trigger] bit_of(s, i) == bit_of(m, i) by {}
            lemma_bits_eq(s, m);
        }
    }
    let w = choose|i: int| #[trigger] bit_of(m, i) && !bit_of(s, i);
    assert(z != 0xffff_ffff_ffff_ffffu64) by {
        assert(!bit_of(z, w));
    }
    lemma_add_one_bits(z);
    let t = tz(!z);
    lemma_tz(!z);
    assert(bit_of(m, t) && !bit_of(s, t));
    let jt = count_below(m, t) as int;
    lemma_count_below_mono(m, t, 64);
    crate::model::lemma_count_below_bounds(m, 64);
    // below `jt` the compacted word is all ones, at `jt` a zero
    assert(!bit_of(c, jt));
    assert forall|j: int| 0 <= j < jt implies #[trigger] bit_of(c, j) by {
        lemma_select_exists(m, t, j);
        let p = choose|p: int| 0 <= p < t && #[trigger] bit_of(m, p) && count_below(m, p) == j;
        assert(!bit_of(!z, p));
    }
    lemma_tz_is(!c, jt);
    assert(c != 0xffff_ffff_ffff_ffffu64) by {
        assert(bit_of(!c, jt));
    }
    lemma_add_one_bits(c);
    let y = ((z + 1) as u64) & m;
    let c1 = (c + 1) as u64;
    assert forall|p: int| #[trigger] bit_of(m, p) implies bit_of(c1, count_below(m, p) as int)
        == bit_of(y, p) by {
        if p < t {
            lemma_count_below_mono(m, p, t);
        } else if p > t {
            lemma_count_below_mono(m, t, p);
        }
    }
    assert forall|j: int| popcount(m) <= j implies !#[trigger] bit_of(c1, j) by {}
}

} // verus!

//! Every combinator of the algebra as a method: runs, the set view, scans,
//! compact/expand, multiply as shift-and-add, the lowest-bit family, SWAR
//! byte lanes and delta swaps.
use vstd::prelude::*;
use crate::model::{
    bit_of, count_below, group_bits, lemma_bits_eq, lemma_count_below_bounds,
    lemma_count_below_mono, lemma_not_is_sub, lemma_popcount_low, lemma_popcount_zero,
    lemma_select_exists, lemma_sub_one_bits, lemma_add_one_bits, lemma_top_bit, lemma_tz,
    low_mask, parity_below, popcount, top_bit, tz,
};
use crate::fill::{
    lemma_reach_outside, lemma_reach_peel, lemma_reach_stable, lemma_run_back_concat, reach,
    run_back,
};
use crate::set::Positions;
use crate::swar::{
    bytes_ge_of, lane, lane_sum, lanes_equal, lemma_count_lane_tops, lemma_signed_overflow,
    lemma_sum_bytes, lemma_swar, lemma_table_bits, signed, signed_out_of_range, table_bit,
    zero_bytes_of,
};
use crate::word::{is_pdep, is_pext, is_select, lemma_compact_increment, xor_smear_down, Word};

verus! {

broadcast use group_bits;

/// Bits `p..p + k` of `x` are all set, inside the word.
pub open spec fn run_at(x: u64, p: int, k: int) -> bool {
    &&& 0 <= p
    &&& p + k <= 64
    &&& forall|b: int| p <= b < p + k ==> #[trigger] bit_of(x, b)
}

/// `x` holds a run of `k` set bits somewhere.
pub open spec fn has_run_spec(x: u64, k: int) -> bool {
    exists|p: int| 0 <= p < 64 && #[trigger] run_at(x, p, k)
}

/// Offset `j` is some element of `set` plus something below `n`.
spec fn covers(set: Set<int>, n: int, j: int) -> bool {
    exists|c: int| #[trigger] set.contains(c) && 0 <= j - c < n
}

/// A longer run holds every shorter one.
pub proof fn lemma_run_shorter(x: u64, p: int, a: int, b: int)
    requires
        0 <= b <= a,
        run_at(x, p, a),
    ensures
        run_at(x, p, b),
{
}

/// Every combinator of the algebra as a method.
pub trait Bits: Word {
    /// Whether `delta_swap(mask, shift)` is defined: the mask and its image
    /// are disjoint and the image does not overflow.
    spec fn delta_ok(mask: Self, shift: u32) -> bool;

    /// Bit `p` of the result is set iff bits `p..p + k` are all set.
    fn run_starts(self, k: u32) -> Self;
    /// `true` iff `self` contains at least one run of `k` set bits.
    fn has_run(self, k: u32) -> bool;
    /// Length of the longest run of set bits.
    fn longest_run(self) -> u32;
    /// Number of set bits at positions `< i`; `i` must be `<= BITS`.
    fn rank(self, i: u32) -> u32
        requires
            i <= Self::width(),
    ;
    /// Position of the `k`-th set bit (0-indexed), if `k < popcount`.
    fn select(self, k: u32) -> Option<u32>;
    /// Position of the lowest set bit, if any.
    fn first_set(self) -> Option<u32>;
    /// Position of the highest set bit, if any.
    fn last_set(self) -> Option<u32>;
    /// Positions of the set bits.
    fn positions(self) -> Positions;
    /// Bit `i` of the result is the OR of bits `0..=i`.
    fn prefix_or(self) -> Self;
    /// Bit `i` of the result is the parity of bits `0..=i`.
    fn prefix_xor(self) -> Self;
    /// Inverse of `prefix_xor`: `x ^ (x << 1)`.
    fn delta_xor(self) -> Self;
    /// Reflected binary Gray code: `x ^ (x >> 1)`.
    fn gray_encode(self) -> Self;
    /// Inverse of `gray_encode`: the prefix XOR from the top.
    fn gray_decode(self) -> Self;
    /// Cells reachable from the set bits by stepping `stride` upward through
    /// `propagate`.
    fn fill_up(self, propagate: Self, stride: u32) -> Self;
    /// Mirror of `fill_up`, stepping downward.
    fn fill_down(self, propagate: Self, stride: u32) -> Self;
    /// Gathers the bits at the set positions of `mask` into the low bits (PEXT).
    fn compact(self, mask: Self) -> Self;
    /// Scatters the low bits to the set positions of `mask` (PDEP).
    fn expand(self, mask: Self) -> Self;
    /// `(x & mask) * factor`, shifted right by `target` and masked to the
    /// popcount of `mask`.
    fn gather(self, mask: Self, factor: Self, target: u32) -> Self;
    /// The factor that sends the `i`-th set bit of `mask` (ascending) to bit
    /// `place(i)`; `None` when a bit would have to move right or past the top.
    fn gather_factor_by<F: Fn(u32) -> u32>(mask: Self, place: F) -> Option<Self>
        requires
            forall|i: u32| place.requires((i,)),
    ;
    /// The factor that moves the `i`-th set bit of `mask` to bit `target + i`.
    fn gather_factor(mask: Self, target: u32) -> Option<Self>;
    /// Only the lowest set bit.
    fn lowest_set_mask(self) -> Self;
    /// Every bit strictly below the lowest set bit.
    fn below_lowest_set(self) -> Self;
    /// Every bit at or below the lowest set bit.
    fn up_to_lowest_set(self) -> Self;
    /// Sets the lowest clear bit.
    fn set_lowest_zero(self) -> Self;
    /// Clears the lowest run of consecutive set bits.
    fn clear_lowest_run(self) -> Self;
    /// Bits of `other` where `mask` is set, bits of `self` elsewhere.
    fn blend(self, other: Self, mask: Self) -> Self;
    /// Any Boolean function of three words, bit by bit, from its truth table.
    fn ternary(self, b: Self, c: Self, table: u8) -> Self;
    /// Overflow of `self + other` read as two's complement.
    fn signed_add_overflows(self, other: Self) -> bool;
    /// Overflow of `self - other` read as two's complement.
    fn signed_sub_overflows(self, other: Self) -> bool;
    /// The next larger integer with the same number of set bits (Gosper's
    /// hack), or `None` when there is none in the word or `self` is zero.
    fn next_same_popcount(self) -> Option<Self>;
    /// The next subset of `mask` after `self`, or `None` after the last.
    fn next_subset(self, mask: Self) -> Option<Self>;
    /// Every subset of `self`, ascending, starting at zero.
    fn subsets(self) -> Subsets;
    /// `true` for exactly one set bit.
    fn is_pow2(self) -> bool;
    /// Largest power of two `<= self`; `None` for zero.
    fn round_down_pow2(self) -> Option<Self>;
    /// Smallest power of two `>= self` (`1` for zero); `None` when it does
    /// not fit the word.
    fn round_up_pow2(self) -> Option<Self>;
    /// `⌊log₂ self⌋`; `None` for zero.
    fn log2_floor(self) -> Option<u32>;
    /// `⌈log₂ self⌉`; `None` for zero.
    fn log2_ceil(self) -> Option<u32>;
    /// `0x01` in every lane.
    fn lanes_lo() -> Self;
    /// `0x80` in every lane.
    fn lanes_hi() -> Self;
    /// High bit of every lane whose byte is zero; other bits clear.
    fn zero_bytes(self) -> Self;
    /// `true` when any lane is zero.
    fn has_zero_byte(self) -> bool;
    /// Index of the lowest zero lane, if any.
    fn first_zero_byte(self) -> Option<u32>;
    /// High bit of every lane equal to `b`.
    fn bytes_eq(self, b: u8) -> Self;
    /// High bit of every lane whose byte is `>= n`, for `n` in `1..=128`.
    fn bytes_ge(self, n: u8) -> Self
        requires
            1 <= n <= 128,
    ;
    /// High bit of every lane whose byte is `< n`, for `n` in `1..=128`.
    fn bytes_lt(self, n: u8) -> Self
        requires
            1 <= n <= 128,
    ;
    /// Number of lanes equal to `b`.
    fn count_bytes_eq(self, b: u8) -> u32;
    /// Sum of all lanes, exact when it fits a byte.
    fn sum_bytes(self) -> u32;
    /// Swaps the bits selected by `mask` with the bits `shift` positions
    /// above them.
    fn delta_swap(self, mask: Self, shift: u32) -> Self
        requires
            shift < Self::width(),
            Self::delta_ok(mask, shift),
    ;
    /// Positions immediately following an odd-length run of backslashes,
    /// with the run parity carried across words: `self` marks the
    /// backslashes, `prev_ends_odd` says whether the previous word ended in
    /// an odd run. Returns the escaped positions and the carry for the next
    /// word.
    fn find_escaped(self, prev_ends_odd: bool) -> (Self, bool);
}

impl Bits for u64 {
    open spec fn delta_ok(mask: u64, shift: u32) -> bool {
        &&& shift < 64
        &&& mask & (mask << (shift as u64)) == 0
        &&& (mask << (shift as u64)) >> (shift as u64) == mask
    }

    fn run_starts(self, k: u32) -> (r: u64)
        ensures
            forall|p: int| 0 <= p < 64 ==> #[trigger] bit_of(r, p) == run_at(self, p, k as int),
    {
        if k == 0 {
            return 0xffff_ffff_ffff_ffff;
        }
        if k > 64 {
            proof {
                assert forall|p: int| 0 <= p < 64 implies #[trigger] bit_of(0u64, p) == run_at(
                    self,
                    p,
                    k as int,
                ) by {}
            }
            return 0;
        }
        let mut x = self;
        let mut n = k;
        let ghost mut set: Set<int> = Set::empty().insert(0int);
        proof {
            assert forall|j: int| 0 <= j < k implies #[trigger] covers(set, n as int, j) by {
                assert(set.contains(0int) && 0 <= j - 0 < n);
            }
        }
        while n > 1
            invariant
                1 <= n <= k <= 64,
                forall|c: int| #[trigger] set.contains(c) ==> 0 <= c && c + n <= k,
                forall|j: int| 0 <= j < k ==> #[trigger] covers(set, n as int, j),
                forall|p: int|
                    #[trigger] bit_of(x, p) == (0 <= p < 64 && forall|c: int|
                        #[trigger] set.contains(c) ==> bit_of(self, p + c)),
            decreases n,
        {
            let s = n / 2;
            let ghost old_set = set;
            let ghost x_old = x;
            x = x & (x >> (s as u64));
            proof {
                set = Set::new(|c: int| old_set.contains(c) || old_set.contains(c - s));
                assert(old_set.contains(0int)) by {
                    assert(covers(old_set, n as int, 0));
                    let c = choose|c: int| #[trigger] old_set.contains(c) && 0 <= 0 - c < n;
                }
                assert forall|p: int|
                    #[trigger] bit_of(x, p) == (0 <= p < 64 && forall|c: int|
                        #[trigger] set.contains(c) ==> bit_of(self, p + c)) by {
                    if 0 <= p < 64 {
                        if bit_of(x, p) {
                            assert forall|c: int| #[trigger] set.contains(c) implies bit_of(
                                self,
                                p + c,
                            ) by {
                                if !old_set.contains(c) {
                                    assert(bit_of(x_old, p + s));
                                    assert(bit_of(self, p + s + (c - s)));
                                }
                            }
                        } else if forall|c: int| #[trigger] set.contains(c) ==> bit_of(self, p + c) {
                            assert(bit_of(x_old, p)) by {
                                assert forall|c: int| #[trigger] old_set.contains(c) implies bit_of(
                                    self,
                                    p + c,
                                ) by {
                                    assert(set.contains(c));
                                }
                            }
                            assert(set.contains(s as int));
                            assert(bit_of(self, p + s));
                            assert(bit_of(x_old, p + s)) by {
                                assert forall|c: int| #[trigger] old_set.contains(c) implies bit_of(
                                    self,
                                    p + s + c,
                                ) by {
                                    assert(set.contains(c + s));
                                }
                            }
                        }
                    }
                }
                assert forall|j: int| 0 <= j < k implies #[trigger] covers(set, n - s, j) by {
                    assert(covers(old_set, n as int, j));
                    let c = choose|c: int| #[trigger] old_set.contains(c) && 0 <= j - c < n;
                    if j - c < n - s {
                        assert(set.contains(c) && 0 <= j - c < n - s);
                    } else {
                        assert(set.contains(c + s) && 0 <= j - (c + s) < n - s);
                    }
                }
            }
            n = n - s;
        }
        proof {
            assert forall|p: int| 0 <= p < 64 implies #[trigger] bit_of(x, p) == run_at(
                self,
                p,
                k as int,
            ) by {
                if bit_of(x, p) {
                    assert forall|b: int| p <= b < p + k implies #[trigger] bit_of(self, b) by {
                        assert(covers(set, n as int, b - p));
                        let c = choose|c: int| #[trigger] set.contains(c) && 0 <= (b - p) - c < n;
                        assert(bit_of(self, p + c));
                    }
                    assert(covers(set, n as int, k - 1));
                    let c = choose|c: int| #[trigger] set.contains(c) && 0 <= (k - 1) - c < n;
                    assert(bit_of(self, p + c));
                } else if run_at(self, p, k as int) {
                    assert forall|c: int| #[trigger] set.contains(c) implies bit_of(self, p + c) by {}
                }
            }
        }
        x
    }

    fn has_run(self, k: u32) -> (r: bool)
        ensures
            r == has_run_spec(self, k as int),
    {
        let s = self.run_starts(k);
        proof {
            if s == 0 {
                assert forall|p: int| 0 <= p < 64 implies !#[trigger] run_at(self, p, k as int) by {
                    assert(!bit_of(s, p));
                }
            } else {
                assert(exists|p: int| 0 <= p < 64 && #[trigger] bit_of(s, p)) by {
                    if forall|p: int| 0 <= p < 64 ==> !#[trigger] bit_of(s, p) {
                        assert forall|p: int| 0 <= p < 64 implies #[trigger] bit_of(s, p)
                            == bit_of(0u64, p) by {}
                        lemma_bits_eq(s, 0);
                    }
                }
                let p = choose|p: int| 0 <= p < 64 && #[trigger] bit_of(s, p);
                assert(run_at(self, p, k as int));
            }
        }
        s != 0
    }

    fn longest_run(self) -> (r: u32)
        ensures
            r <= 64,
            has_run_spec(self, r as int),
            !has_run_spec(self, r + 1),
    {
        let mut lo: u32 = 0;
        let mut hi: u32 = 64;
        proof {
            assert(run_at(self, 0, 0));
            assert forall|p: int| 0 <= p < 64 implies !#[trigger] run_at(self, p, 65) by {}
        }
        while lo < hi
            invariant
                lo <= hi <= 64,
                has_run_spec(self, lo as int),
                !has_run_spec(self, hi + 1),
            decreases hi - lo,
        {
            let mid = lo + (hi - lo + 1) / 2;
            if self.has_run(mid) {
                lo = mid;
            } else {
                proof {
                    assert forall|p: int| 0 <= p < 64 implies !#[trigger] run_at(self, p, mid as int) by {}
                    assert forall|p: int| 0 <= p < 64 implies !#[trigger] run_at(self, p, mid as int + 0) by {}
                }
                hi = mid - 1;
                proof {
                    assert forall|p: int| 0 <= p < 64 implies !#[trigger] run_at(self, p, hi + 1) by {
                        assert(hi + 1 == mid);
                    }
                }
            }
        }
        lo
    }

    fn rank(self, i: u32) -> (r: u32)
        ensures
            r == count_below(self, i as int),
    {
        proof {
            lemma_popcount_low(self, i as int);
        }
        Word::count_ones(self & <u64 as Word>::low_ones(i))
    }

    fn select(self, k: u32) -> (r: Option<u32>)
        ensures
            match r {
                None => k >= popcount(self),
                Some(p) => k < popcount(self) && bit_of(self, p as int) && count_below(self, p as int)
                    == k,
            },
    {
        if k >= Word::count_ones(self) {
            None
        } else {
            let p = Word::select_lowest(self, k);
            Some(p)
        }
    }

    fn first_set(self) -> (r: Option<u32>)
        ensures
            r == if self == 0 {
                None
            } else {
                Some(tz(self) as u32)
            },
    {
        proof {
            lemma_tz(self);
        }
        if self == 0 {
            None
        } else {
            Some(self.trailing_zeros())
        }
    }

    fn last_set(self) -> (r: Option<u32>)
        ensures
            r == if self == 0 {
                None
            } else {
                Some(top_bit(self) as u32)
            },
    {
        proof {
            lemma_top_bit(self);
        }
        if self == 0 {
            None
        } else {
            Some(64 - 1 - self.leading_zeros())
        }
    }

    fn positions(self) -> (r: Positions)
        ensures
            r.0 == self,
    {
        Positions(self)
    }

    fn prefix_or(self) -> (r: u64)
        ensures
            forall|i: int| #[trigger] bit_of(r, i) == (tz(self) <= i < 64),
    {
        let r = self | 0u64.wrapping_sub(self);
        proof {
            lemma_tz(self);
            if self != 0 {
                lemma_sub_one_bits(self);
                lemma_not_is_sub((self - 1) as u64);
                assert(0u64.wrapping_sub(self) == !((self - 1) as u64));
            }
        }
        r
    }

    fn prefix_xor(self) -> (r: u64)
        ensures
            forall|i: int| 0 <= i < 64 ==> #[trigger] bit_of(r, i) == parity_below(self, i + 1),
    {
        Word::xor_scan(self)
    }

    fn delta_xor(self) -> (r: u64)
        ensures
            forall|i: int|
                0 <= i < 64 ==> #[trigger] bit_of(r, i) == (bit_of(self, i) != (i >= 1 && bit_of(
                    self,
                    i - 1,
                ))),
    {
        self ^ (self << 1u64)
    }

    fn gray_encode(self) -> (r: u64)
        ensures
            forall|i: int|
                0 <= i < 64 ==> #[trigger] bit_of(r, i) == (bit_of(self, i) != bit_of(self, i + 1)),
    {
        self ^ (self >> 1u64)
    }

    fn gray_decode(self) -> (r: u64)
        ensures
            forall|i: int|
                0 <= i < 64 ==> #[trigger] bit_of(r, i) == (parity_below(self, 64) != parity_below(
                    self,
                    i,
                )),
    {
        xor_smear_down(self)
    }

    fn fill_up(self, propagate: u64, stride: u32) -> (r: u64)
        ensures
            stride == 0 || stride >= 64 ==> r == self,
            1 <= stride < 64 ==> forall|i: int|
                0 <= i < 64 ==> #[trigger] bit_of(r, i) == reach(self, propagate, stride as int, i, 64),
    {
        if stride == 0 || stride >= 64 {
            return self;
        }
        let mut reach = self;
        let mut prop = propagate;
        let mut s: u64 = stride as u64;
        let ghost st = stride as int;
        let ghost mut m: int = 1;
        proof {
            assert(m * st == st) by (nonlinear_arith)
                requires
                    m == 1,
            ;
            assert forall|j: int| #[trigger] bit_of(prop, j) == run_back(propagate, st, j, m) by {
                assert(run_back(propagate, st, j - st, 0));
            }
        }
        while s < 64
            invariant
                1 <= st < 64,
                m >= 1,
                s == m * st,
                1 <= s < 128,
                forall|j: int| #[trigger] bit_of(reach, j) == crate::fill::reach(self, propagate, st, j, m - 1),
                forall|j: int| #[trigger] bit_of(prop, j) == run_back(propagate, st, j, m),
            decreases 128 - s,
        {
            let r2 = reach | (prop & (reach << s));
            let p2 = prop & (prop << s);
            proof {
                assert forall|j: int| #[trigger] bit_of(r2, j) == crate::fill::reach(self, propagate, st, j, 2 * m - 1) by {
                    lemma_reach_peel(self, propagate, st, j, m, m - 1);
                    assert(m - 1 + m == 2 * m - 1);
                    if j - s < 0 || j - s >= 64 {
                        lemma_reach_outside(self, propagate, st, j - s, m - 1);
                    }
                    if j < 0 || j >= 64 {
                        lemma_reach_outside(self, propagate, st, j, 2 * m - 1);
                    }
                }
                assert forall|j: int| #[trigger] bit_of(p2, j) == run_back(propagate, st, j, 2 * m) by {
                    lemma_run_back_concat(propagate, st, j, m, m);
                    if j - s < 0 || j - s >= 64 {
                        lemma_reach_outside(self, propagate, st, j - s, m);
                    }
                    if j < 0 || j >= 64 {
                        lemma_reach_outside(self, propagate, st, j, 2 * m);
                    }
                }
                assert(2 * s == (2 * m) * st) by (nonlinear_arith)
                    requires
                        s == m * st,
                ;
            }
            reach = r2;
            prop = p2;
            s = s * 2;
            proof {
                m = 2 * m;
            }
        }
        proof {
            assert forall|i: int| 0 <= i < 64 implies #[trigger] bit_of(reach, i) == crate::fill::reach(
                self,
                propagate,
                st,
                i,
                64,
            ) by {
                if m - 1 <= 64 {
                    lemma_reach_stable(self, propagate, st, i, m - 1, 64);
                } else {
                    assert((64 + 1) * st > i) by (nonlinear_arith)
                        requires
                            st >= 1,
                            i < 64,
                    ;
                    lemma_reach_stable(self, propagate, st, i, 64, m - 1);
                }
            }
        }
        reach
    }

    fn fill_down(self, propagate: u64, stride: u32) -> (r: u64)
        ensures
            stride == 0 || stride >= 64 ==> r == self,
            1 <= stride < 64 ==> forall|i: int|
                0 <= i < 64 ==> #[trigger] bit_of(r, i) == reach(self, propagate, -stride, i, 64),
    {
        if stride == 0 || stride >= 64 {
            return self;
        }
        let mut reach = self;
        let mut prop = propagate;
        let mut s: u64 = stride as u64;
        let ghost st = -(stride as int);
        let ghost mut m: int = 1;
        proof {
            assert(m * st == st) by (nonlinear_arith)
                requires
                    m == 1,
            ;
            assert forall|j: int| #[trigger] bit_of(prop, j) == run_back(propagate, st, j, m) by {
                assert(run_back(propagate, st, j - st, 0));
            }
        }
        while s < 64
            invariant
                -64 < st <= -1,
                m >= 1,
                s == -(m * st),
                1 <= s < 128,
                forall|j: int| #[trigger] bit_of(reach, j) == crate::fill::reach(self, propagate, st, j, m - 1),
                forall|j: int| #[trigger] bit_of(prop, j) == run_back(propagate, st, j, m),
            decreases 128 - s,
        {
            let r2 = reach | (prop & (reach >> s));
            let p2 = prop & (prop >> s);
            proof {
                assert forall|j: int| #[trigger] bit_of(r2, j) == crate::fill::reach(self, propagate, st, j, 2 * m - 1) by {
                    lemma_reach_peel(self, propagate, st, j, m, m - 1);
                    assert(m - 1 + m == 2 * m - 1);
                    if j + s < 0 || j + s >= 64 {
                        lemma_reach_outside(self, propagate, st, j + s, m - 1);
                    }
                    if j < 0 || j >= 64 {
                        lemma_reach_outside(self, propagate, st, j, 2 * m - 1);
                    }
                }
                assert forall|j: int| #[trigger] bit_of(p2, j) == run_back(propagate, st, j, 2 * m) by {
                    lemma_run_back_concat(propagate, st, j, m, m);
                    if j + s < 0 || j + s >= 64 {
                        lemma_reach_outside(self, propagate, st, j + s, m);
                    }
                    if j < 0 || j >= 64 {
                        lemma_reach_outside(self, propagate, st, j, 2 * m);
                    }
                }
                assert(2 * s == -((2 * m) * st)) by (nonlinear_arith)
                    requires
                        s == -(m * st),
                ;
            }
            reach = r2;
            prop = p2;
            s = s * 2;
            proof {
                m = 2 * m;
            }
        }
        proof {
            assert forall|i: int| 0 <= i < 64 implies #[trigger] bit_of(reach, i) == crate::fill::reach(
                self,
                propagate,
                st,
                i,
                64,
            ) by {
                if m - 1 <= 64 {
                    assert(i - m * st >= 64);
                    lemma_reach_stable(self, propagate, st, i, m - 1, 64);
                } else {
                    assert(i - (64 + 1) * st >= 64) by (nonlinear_arith)
                        requires
                            st <= -1,
                            i >= 0,
                    ;
                    lemma_reach_stable(self, propagate, st, i, 64, m - 1);
                }
            }
        }
        reach
    }

    fn compact(self, mask: u64) -> (r: u64)
        ensures
            is_pext(self, mask, r),
    {
        Word::pext(self, mask)
    }

    fn expand(self, mask: u64) -> (r: u64)
        ensures
            is_pdep(self, mask, r),
    {
        Word::pdep(self, mask)
    }

    fn gather(self, mask: u64, factor: u64, target: u32) -> (r: u64)
        ensures
            target >= 64 ==> r == 0,
            target < 64 ==> r == ((((self & mask) as int * factor as int) % 0x1_0000_0000_0000_0000) as u64
                >> (target as u64)) & low_mask(popcount(mask) as int),
    {
        if target >= 64 {
            return 0;
        }
        proof {
            lemma_count_below_bounds(mask, 64);
        }
        Word::wrapping_mul(self & mask, factor) >> target & <u64 as Word>::low_ones(Word::count_ones(mask))
    }

    fn gather_factor_by<F: Fn(u32) -> u32>(mask: u64, place: F) -> (r: Option<u64>)
        ensures
            r matches Some(f) ==> {
                &&& forall|q: int| #[trigger] bit_of(mask, q) ==> carried(place, mask, f, q)
                &&& forall|d: int| #[trigger] bit_of(f, d) ==> is_distance(place, mask, d)
            },
            r is None ==> misplaced(place, mask),
    {
        let mut factor: u64 = 0;
        let mut pos = Positions(mask);
        let mut i: u32 = 0;
        proof {
            lemma_count_below_bounds(mask, 64);
        }
        while pos.0 != 0
            invariant
                i <= 64,
                i as int <= popcount(mask),
                forall|q: int| #[trigger] bit_of(pos.0, q) == (bit_of(mask, q) && count_below(mask, q) >= i),
                forall|q: int| #[trigger] bit_of(mask, q) && count_below(mask, q) < i ==> carried(place, mask, factor, q),
                forall|d: int| #[trigger] bit_of(factor, d) ==> is_distance(place, mask, d),
                forall|u: u32| place.requires((u,)),
            decreases popcount(pos.0),
        {
            let ghost old_pos = pos.0;
            let q = match pos.next() {
                Some(q) => q,
                None => { return None; }
            };
            proof {
                if count_below(mask, q as int) > i {
                    lemma_select_exists(mask, q as int, i as int);
                    let p = choose|p: int| 0 <= p < q && #[trigger] bit_of(mask, p) && count_below(mask, p) == i;
                    assert(bit_of(old_pos, p));
                }
                assert(count_below(mask, q as int) == i);
                assert(count_below(mask, q + 1) == count_below(mask, q as int) + 1);
                lemma_count_below_mono(mask, q + 1, 64);
                lemma_count_drop_one(old_pos, pos.0, q as int);
                lemma_count_below_bounds(mask, 64);
                assert(i < popcount(mask));
                assert forall|j: int| #[trigger] bit_of(pos.0, j) == (bit_of(mask, j) && count_below(mask, j) >= i + 1) by {
                    if bit_of(mask, j) && count_below(mask, j) == i {
                        crate::model::lemma_select_unique(mask, j, q as int);
                    }
                }
            }
            let t = place(i);
            if t < q || t >= 64 {
                proof {
                    assert(bit_of(mask, q as int) && call_ensures(place, (count_below(mask, q as int) as u32,), t));
                }
                return None;
            }
            let ghost old_factor = factor;
            factor = factor | (1u64 << (t - q));
            proof {
                assert(bit_of(factor, t - q));
                assert((count_below(mask, q as int) as u32) == i);
                assert(call_ensures(place, (count_below(mask, q as int) as u32,), t));
                assert(carried(place, mask, factor, q as int));
                assert forall|j: int| #[trigger] bit_of(mask, j) && count_below(mask, j) < i + 1 implies carried(place, mask, factor, j) by {
                    if count_below(mask, j) == i {
                        crate::model::lemma_select_unique(mask, j, q as int);
                    } else {
                        lemma_carried_grow(place, mask, old_factor, factor, j);
                    }
                }
                assert forall|d: int| #[trigger] bit_of(factor, d) implies is_distance(place, mask, d) by {
                    if !bit_of(old_factor, d) {
                        assert(bit_of(mask, q as int) && call_ensures(place, (count_below(mask, q as int) as u32,), t) && d == t - q);
                    }
                }
            }
            i = i + 1;
        }
        proof {
            assert forall|q: int| #[trigger] bit_of(mask, q) implies carried(place, mask, factor, q) by {
                assert(!bit_of(pos.0, q));
            }
        }
        Some(factor)
    }
    fn gather_factor(mask: u64, target: u32) -> (r: Option<u64>)
        ensures
            r is None <==> exists|q: int|
                #[trigger] bit_of(mask, q) && (target + count_below(mask, q) < q || target + count_below(mask, q) >= 64),
            r matches Some(f) ==> forall|d: int|
                #[trigger] bit_of(f, d) == exists|q: int|
                    #[trigger] bit_of(mask, q) && d == target + count_below(mask, q) - q,
    {
        let place = |i: u32| -> (t: u32)
            ensures
                t == if target as int + i as int > u32::MAX { u32::MAX as int } else { target as int + i as int },
        {
            target.saturating_add(i)
        };
        let r = Self::gather_factor_by(mask, place);
        proof {
            lemma_count_below_bounds(mask, 64);
            match r {
                Some(f) => {
                    assert forall|q: int| #[trigger] bit_of(mask, q) implies !(target + count_below(mask, q) < q || target + count_below(mask, q) >= 64) by {
                        let t = choose|t: u32| #[trigger] call_ensures(place, (count_below(mask, q) as u32,), t) && q <= t < 64 && bit_of(f, t - q);
                        lemma_count_below_mono(mask, q, 64);
                    }
                    assert forall|d: int| #[trigger] bit_of(f, d) == exists|q: int|
                        #[trigger] bit_of(mask, q) && d == target + count_below(mask, q) - q by {
                        if bit_of(f, d) {
                            let (q, t) = choose|q: int, t: u32| #[trigger] bit_of(mask, q) && #[trigger] call_ensures(place, (count_below(mask, q) as u32,), t) && d == t - q;
                            lemma_count_below_mono(mask, q, 64);
                            assert(bit_of(mask, q) && d == target + count_below(mask, q) - q);
                        }
                        if exists|q: int| #[trigger] bit_of(mask, q) && d == target + count_below(mask, q) - q {
                            let q = choose|q: int| #[trigger] bit_of(mask, q) && d == target + count_below(mask, q) - q;
                            let t = choose|t: u32| #[trigger] call_ensures(place, (count_below(mask, q) as u32,), t) && q <= t < 64 && bit_of(f, t - q);
                            lemma_count_below_mono(mask, q, 64);
                        }
                    }
                },
                None => {
                    let (q, t) = choose|q: int, t: u32| #[trigger] bit_of(mask, q) && #[trigger] call_ensures(place, (count_below(mask, q) as u32,), t) && (t < q || t >= 64);
                    lemma_count_below_mono(mask, q, 64);
                    assert(bit_of(mask, q) && (target + count_below(mask, q) < q || target + count_below(mask, q) >= 64));
                },
            }
        }
        r
    }

    fn next_same_popcount(self) -> (r: Option<u64>)
        ensures
            self == 0 ==> r is None,
            self != 0 ==> (r is None <==> run_end(self) == 64),
            r matches Some(y) ==> forall|i: int|
                0 <= i < 64 ==> #[trigger] bit_of(y, i) == ((i > run_end(self) && bit_of(self, i))
                    || i == run_end(self) || i < run_end(self) - tz(self) - 1),
    {
        let s = self.lowest_set_mask();
        let r = self.wrapping_add(s);
        proof {
            lemma_tz(self);
            if self == 0 {
                assert forall|i: int| 0 <= i < 64 implies #[trigger] bit_of(s, i) == bit_of(0u64, i) by {}
                lemma_bits_eq(s, 0);
            } else {
                let t = tz(self);
                let z = self | low_mask(t);
                assert forall|i: int| 0 <= i < 64 implies #[trigger] bit_of(s, i) == bit_of(1u64 << (t as u64), i) by {}
                lemma_bits_eq(s, 1u64 << (t as u64));
                assert forall|i: int| 0 <= i < 64 implies #[trigger] bit_of(self & low_mask(t), i) == bit_of(0u64, i) by {}
                lemma_bits_eq(self & low_mask(t), 0);
                crate::model::lemma_or_is_add(self, low_mask(t));
                assert(bit_of(1u64 << (t as u64), t));
                assert(low_mask(t) + 1 == 1u64 << (t as u64)) by {
                    if t == 0 {
                        assert(1u64 << 0u64 == 1) by { crate::model::lemma_shl_zero(); }
                    } else {
                        assert((1u64 << (t as u64)) != 0) by { assert(!bit_of(0u64, t)); }
                    }
                }
                if z == 0xffff_ffff_ffff_ffff {
                    assert(r == 0);
                    lemma_tz(!z);
                    assert(!z == 0) by { lemma_not_is_sub(z); }
                } else {
                    lemma_add_one_bits(z);
                    lemma_tz(!z);
                    assert(r == (z + 1) as u64);
                    assert(bit_of(r, run_end(self)));
                }
            }
        }
        if r == 0 {
            // Zero input, or the lowest run of ones reached the top.
            return None;
        }
        // Ones cleared by the carry, minus one, moved back to the bottom.
        // Two shifts: `tzcnt + 2` may equal `BITS`.
        let ones = (self ^ r) >> self.trailing_zeros() >> 2u64;
        let y = r | ones;
        proof {
            let t = tz(self);
            let u = run_end(self);
            lemma_tz(!(self | low_mask(t)));
            assert forall|i: int| 0 <= i < 64 implies #[trigger] bit_of(self ^ r, i) == (t <= i <= u) by {
                if t <= i < u {
                    assert(!bit_of(!(self | low_mask(t)), i));
                    assert(bit_of(self | low_mask(t), i));
                }
            }
            assert forall|i: int| 0 <= i < 64 implies #[trigger] bit_of(ones, i) == (i < u - t - 1) by {
                assert(bit_of(ones, i) == bit_of(self ^ r, i + t + 2));
            }
        }
        Some(y)
    }

    fn next_subset(self, mask: u64) -> (r: Option<u64>)
        ensures
            self & mask == mask ==> r is None,
            self & mask != mask ==> (r matches Some(y) && y & !mask == 0 && forall|c: u64|
                #[trigger] is_pext(self & mask, mask, c) ==> c != 0xffff_ffff_ffff_ffffu64 && is_pext(y, mask, (c + 1) as u64)),
    {
        let s = self & mask;
        if s == mask {
            None
        } else {
            let y = s.wrapping_sub(mask) & mask;
            proof {
                assert forall|i: int| 0 <= i < 64 implies #[trigger] bit_of(s & mask, i) == bit_of(s, i) by {}
                lemma_bits_eq(s & mask, s);
                lemma_subset_step(s, mask);
                assert forall|c: u64| #[trigger] is_pext(s, mask, c) implies c != 0xffff_ffff_ffff_ffffu64 && is_pext(y, mask, (c + 1) as u64) by {
                    lemma_compact_increment(s, mask, c);
                }
                assert forall|i: int| 0 <= i < 64 implies #[trigger] bit_of(y & !mask, i) == bit_of(0u64, i) by {}
                lemma_bits_eq(y & !mask, 0);
            }
            Some(y)
        }
    }

    fn subsets(self) -> (r: Subsets)
        ensures
            r.mask == self,
            r.next == Some(0u64),
    {
        Subsets::new(self)
    }

    fn lowest_set_mask(self) -> (r: u64)
        ensures
            forall|i: int| 0 <= i < 64 ==> #[trigger] bit_of(r, i) == (i == tz(self)),
    {
        let r = self & 0u64.wrapping_sub(self);
        proof {
            lemma_tz(self);
            if self != 0 {
                lemma_sub_one_bits(self);
                lemma_not_is_sub((self - 1) as u64);
                assert(0u64.wrapping_sub(self) == !((self - 1) as u64));
            }
        }
        r
    }

    fn below_lowest_set(self) -> (r: u64)
        ensures
            forall|i: int| #[trigger] bit_of(r, i) == (0 <= i < tz(self)),
    {
        let r = !self & self.wrapping_sub(1);
        proof {
            lemma_tz(self);
            if self != 0 {
                lemma_sub_one_bits(self);
            } else {
                assert(self.wrapping_sub(1) == 0xffff_ffff_ffff_ffffu64);
            }
        }
        r
    }

    fn up_to_lowest_set(self) -> (r: u64)
        ensures
            forall|i: int| #[trigger] bit_of(r, i) == (0 <= i <= tz(self) && i < 64),
    {
        let r = self ^ self.wrapping_sub(1);
        proof {
            lemma_tz(self);
            if self != 0 {
                lemma_sub_one_bits(self);
            } else {
                assert(self.wrapping_sub(1) == 0xffff_ffff_ffff_ffffu64);
            }
        }
        r
    }

    fn set_lowest_zero(self) -> (r: u64)
        ensures
            forall|i: int|
                0 <= i < 64 ==> #[trigger] bit_of(r, i) == (bit_of(self, i) || i == tz(!self)),
    {
        let r = self | self.wrapping_add(1);
        proof {
            lemma_tz(!self);
            if self != 0xffff_ffff_ffff_ffff {
                lemma_add_one_bits(self);
            } else {
                assert(self.wrapping_add(1) == 0);
                assert(!self == 0) by {
                    lemma_not_is_sub(self);
                }
            }
        }
        r
    }

    fn clear_lowest_run(self) -> (r: u64)
        ensures
            forall|i: int|
                #[trigger] bit_of(r, i) == (bit_of(self, i) && i > tz(!(self | low_mask(tz(self))))),
    {
        let y = self | self.wrapping_sub(1);
        let r = y.wrapping_add(1) & self;
        proof {
            lemma_tz(self);
            if self != 0 {
                lemma_sub_one_bits(self);
                assert forall|i: int| 0 <= i < 64 implies #[trigger] bit_of(y, i) == bit_of(
                    self | low_mask(tz(self)),
                    i,
                ) by {}
                lemma_bits_eq(y, self | low_mask(tz(self)));
                if y != 0xffff_ffff_ffff_ffff {
                    lemma_add_one_bits(y);
                    lemma_tz(!y);
                } else {
                    assert(y.wrapping_add(1) == 0);
                    assert(!y == 0) by {
                        lemma_not_is_sub(y);
                    }
                    lemma_tz(!y);
                }
            }
        }
        r
    }

    fn blend(self, other: u64, mask: u64) -> (r: u64)
        ensures
            forall|i: int|
                #[trigger] bit_of(r, i) == if bit_of(mask, i) {
                    bit_of(other, i)
                } else {
                    bit_of(self, i)
                },
    {
        self ^ ((self ^ other) & mask)
    }

    fn ternary(self, b: u64, c: u64, table: u8) -> (r: u64)
        ensures
            forall|i: int|
                0 <= i < 64 ==> #[trigger] bit_of(r, i) == table_bit(
                    table,
                    4 * bit_num(self, i) + 2 * bit_num(b, i) + bit_num(c, i),
                ),
    {
        let t_hi = table >> 4u8;
        let on_b_hi = ternary_on_b(b, c, t_hi);
        let on_b_lo = ternary_on_b(b, c, table);
        let r = (self & on_b_hi) | (!self & on_b_lo);
        proof {
            assert forall|i: int| 0 <= i < 64 implies #[trigger] bit_of(r, i) == table_bit(
                table,
                4 * bit_num(self, i) + 2 * bit_num(b, i) + bit_num(c, i),
            ) by {
                lemma_table_bits(table, 2 * bit_num(b, i) + bit_num(c, i));
            }
        }
        r
    }

    fn signed_add_overflows(self, other: u64) -> (r: bool)
        ensures
            r == signed_out_of_range(signed(self) + signed(other)),
    {
        proof {
            lemma_signed_overflow(self, other);
        }
        let v = !(self ^ other) & (self ^ self.wrapping_add(other));
        (v >> 63u64) & 1 == 1
    }

    fn signed_sub_overflows(self, other: u64) -> (r: bool)
        ensures
            r == signed_out_of_range(signed(self) - signed(other)),
    {
        proof {
            lemma_signed_overflow(self, other);
        }
        let v = (self ^ other) & (self ^ self.wrapping_sub(other));
        (v >> 63u64) & 1 == 1
    }

    fn is_pow2(self) -> (r: bool)
        ensures
            r == (popcount(self) == 1),
    {
        let c = Word::clear_lowest_set(self);
        proof {
            lemma_tz(self);
            lemma_popcount_zero(self);
            lemma_popcount_zero(c);
            if self != 0 {
                // removing the lowest set bit takes one off the count
                lemma_count_drop_one(self, c, tz(self));
            }
        }
        self != 0 && c == 0
    }

    fn round_down_pow2(self) -> (r: Option<u64>)
        ensures
            r == if self == 0 {
                None
            } else {
                Some(1u64 << (top_bit(self) as u64))
            },
    {
        match self.last_set() {
            None => None,
            Some(p) => Some(1u64 << p),
        }
    }

    fn round_up_pow2(self) -> (r: Option<u64>)
        ensures
            self <= 1 ==> r == Some(1u64),
            self > 1 ==> r == if top_bit((self - 1) as u64) == 63 {
                None
            } else {
                Some(1u64 << ((top_bit((self - 1) as u64) + 1) as u64))
            },
    {
        if self >> 1u64 == 0 {
            proof {
                assert(self <= 1) by {
                    vstd::bits::lemma_u64_shr_is_div(self, 1);
                    vstd::arithmetic::power2::lemma2_to64();
                }
            }
            return Some(1);
        }
        proof {
            vstd::bits::lemma_u64_shr_is_div(self, 1);
            vstd::arithmetic::power2::lemma2_to64();
            lemma_top_bit((self - 1) as u64);
        }
        let lz = self.wrapping_sub(1).leading_zeros();
        if lz == 0 {
            None
        } else {
            Some(1u64 << (64 - lz))
        }
    }

    fn log2_floor(self) -> (r: Option<u32>)
        ensures
            r == if self == 0 {
                None
            } else {
                Some(top_bit(self) as u32)
            },
    {
        self.last_set()
    }

    fn log2_ceil(self) -> (r: Option<u32>)
        ensures
            r == if self == 0 {
                None
            } else {
                Some((top_bit((self - 1) as u64) + 1) as u32)
            },
    {
        if self == 0 {
            None
        } else {
            proof {
                lemma_top_bit((self - 1) as u64);
            }
            Some(64 - self.wrapping_sub(1).leading_zeros())
        }
    }

    fn lanes_lo() -> (r: u64)
        ensures
            r == 0x0101_0101_0101_0101,
    {
        <u64 as Word>::splat_byte(0x01)
    }

    fn lanes_hi() -> (r: u64)
        ensures
            r == 0x8080_8080_8080_8080,
    {
        <u64 as Word>::splat_byte(0x80)
    }

    fn zero_bytes(self) -> (r: u64)
        ensures
            forall|i: int|
                0 <= i < 64 ==> #[trigger] bit_of(r, i) == (i % 8 == 7 && lane(self, i / 8) == 0),
    {
        let low7 = <u64 as Word>::splat_byte(0x7F);
        proof {
            lemma_swar(self, 0, 1, 0);
        }
        // Lane sum >= 0x80 iff its low seven bits are non-zero; OR in the
        // byte's own high bit; every non-zero byte now has bit 7.
        let y = (self & low7).wrapping_add(low7) | self | low7;
        proof {
            assert(!y == zero_bytes_of(self));
            assert forall|i: int| 0 <= i < 64 implies #[trigger] bit_of(!y, i) == (i % 8 == 7
                && lane(self, i / 8) == 0) by {
                lemma_swar(self, 0, 1, i);
            }
        }
        !y
    }

    fn has_zero_byte(self) -> (r: bool)
        ensures
            r == exists|j: int| 0 <= j < 8 && #[trigger] lane(self, j) == 0,
    {
        let z = self.zero_bytes();
        proof {
            if z == 0 {
                assert forall|j: int| 0 <= j < 8 implies #[trigger] lane(self, j) != 0 by {
                    assert(!bit_of(z, 8 * j + 7));
                    assert((8 * j + 7) / 8 == j);
                }
            } else {
                let i = choose|i: int| 0 <= i < 64 && #[trigger] bit_of(z, i);
                lemma_nonzero_has_bit(z);
                let i = choose|i: int| 0 <= i < 64 && #[trigger] bit_of(z, i);
                assert(lane(self, i / 8) == 0);
            }
        }
        z != 0
    }

    fn first_zero_byte(self) -> (r: Option<u32>)
        ensures
            match r {
                None => forall|j: int| 0 <= j < 8 ==> #[trigger] lane(self, j) != 0,
                Some(j) => j < 8 && lane(self, j as int) == 0 && forall|l: int|
                    0 <= l < j ==> #[trigger] lane(self, l) != 0,
            },
    {
        let z = self.zero_bytes();
        proof {
            lemma_tz(z);
        }
        if z == 0 {
            proof {
                assert forall|j: int| 0 <= j < 8 implies #[trigger] lane(self, j) != 0 by {
                    assert(!bit_of(z, 8 * j + 7));
                    assert((8 * j + 7) / 8 == j);
                }
            }
            None
        } else {
            let t = z.trailing_zeros();
            proof {
                assert forall|l: int| 0 <= l < t / 8 implies #[trigger] lane(self, l) != 0 by {
                    assert((8 * l + 7) / 8 == l);
                    assert(!bit_of(z, 8 * l + 7));
                }
            }
            Some(t / 8)
        }
    }

    fn bytes_eq(self, b: u8) -> (r: u64)
        ensures
            forall|i: int|
                0 <= i < 64 ==> #[trigger] bit_of(r, i) == (i % 8 == 7 && lane(self, i / 8) == b),
    {
        let y = self ^ <u64 as Word>::splat_byte(b);
        let r = y.zero_bytes();
        proof {
            assert forall|i: int| 0 <= i < 64 implies #[trigger] bit_of(r, i) == (i % 8 == 7
                && lane(self, i / 8) == b) by {
                lemma_swar(self, b as u64, 1, i);
            }
        }
        r
    }

    fn bytes_ge(self, n: u8) -> (r: u64)
        ensures
            forall|i: int|
                0 <= i < 64 ==> #[trigger] bit_of(r, i) == (i % 8 == 7 && lane(self, i / 8) >= n),
    {
        // low7 + (128 - n) reaches bit 7 iff low7 >= n; a byte >= 128
        // already carries bit 7 itself.
        let low7 = <u64 as Word>::splat_byte(0x7F);
        proof {
            lemma_swar(self, 0, n as u64, 0);
        }
        let r = (self & low7).wrapping_add(<u64 as Word>::splat_byte(0x80 - n)) | self;
        let r = r & Self::lanes_hi();
        proof {
            assert(r == bytes_ge_of(self, n as u64));
            assert forall|i: int| 0 <= i < 64 implies #[trigger] bit_of(r, i) == (i % 8 == 7
                && lane(self, i / 8) >= n) by {
                lemma_swar(self, 0, n as u64, i);
            }
        }
        r
    }

    fn bytes_lt(self, n: u8) -> (r: u64)
        ensures
            forall|i: int|
                0 <= i < 64 ==> #[trigger] bit_of(r, i) == (i % 8 == 7 && lane(self, i / 8) < n),
    {
        let r = self.bytes_ge(n) ^ Self::lanes_hi();
        proof {
            assert forall|i: int| 0 <= i < 64 implies #[trigger] bit_of(r, i) == (i % 8 == 7
                && lane(self, i / 8) < n) by {
                lemma_swar(self, 0, n as u64, i);
            }
        }
        r
    }

    fn count_bytes_eq(self, b: u8) -> (r: u32)
        ensures
            r == lanes_equal(self, b as u64, 8),
    {
        let e = self.bytes_eq(b);
        proof {
            lemma_count_lane_tops(e, self, b as u64, 8);
        }
        Word::count_ones(e)
    }

    fn sum_bytes(self) -> (r: u32)
        ensures
            r < 256,
            lane_sum(self, 8) < 256 ==> r == lane_sum(self, 8),
    {
        // Multiply by 0x01…01: the top lane accumulates every lane.
        let p = Word::wrapping_mul(self, Self::lanes_lo());
        proof {
            lemma_sum_bytes(self);
            crate::model::lemma_low_byte(p >> 56u64);
            vstd::bits::lemma_u64_shr_is_div(p, 56);
            vstd::arithmetic::power2::lemma2_to64_rest();
        }
        Word::low_byte(p >> 56u32) as u32
    }

    fn delta_swap(self, mask: u64, shift: u32) -> (r: u64)
        ensures
            r == delta_swap_of(self, mask, shift as u64),
            forall|i: int|
                0 <= i < 64 ==> #[trigger] bit_of(r, i) == if bit_of(mask, i) {
                    bit_of(self, i + shift)
                } else if i >= shift && bit_of(mask, i - shift) {
                    bit_of(self, i - shift)
                } else {
                    bit_of(self, i)
                },
    {
        let t = (self ^ (self >> shift)) & mask;
        let r = self ^ t ^ (t << shift);
        proof {
            assert forall|i: int| 0 <= i < 64 implies #[trigger] bit_of(r, i) == if bit_of(mask, i) {
                bit_of(self, i + shift)
            } else if i >= shift && bit_of(mask, i - shift) {
                bit_of(self, i - shift)
            } else {
                bit_of(self, i)
            } by {
                assert(!bit_of(mask & (mask << (shift as u64)), i));
                if bit_of(mask, i) {
                    // the image of a masked bit is not masked
                    assert(!bit_of(mask << (shift as u64), i));
                    assert(i + shift < 64) by {
                        assert(bit_of((mask << (shift as u64)) >> (shift as u64), i));
                    }
                } else if i >= shift && bit_of(mask, i - shift) {
                    assert(bit_of(mask << (shift as u64), i));
                }
            }
        }
        r
    }

    fn find_escaped(self, prev_ends_odd: bool) -> (r: (u64, bool))
        ensures
            forall|i: int| 0 <= i < 64 ==> #[trigger] bit_of(r.0, i) == (odd_before(self, prev_ends_odd, i) && !bit_of(self, i)),
            r.1 == odd_before(self, prev_ends_odd, 64),
    {
        let even: u64 = <u64 as Word>::splat_byte(0x55);
        let odd = !even;
        let flip: u64 = if prev_ends_odd { 1 } else { 0 };
        let start_edges = self & !(self << 1u32);
        let even_start_mask = even ^ flip;
        let even_starts = start_edges & even_start_mask;
        let odd_starts = start_edges & !even_start_mask;
        let even_carries = self.wrapping_add(even_starts);
        let odd_sum = self.wrapping_add(odd_starts);
        let odd_carries = odd_sum | flip;
        let overflow = (self & odd_starts) | ((self | odd_starts) & !odd_carries);
        let carry = Word::bit(overflow, 63);
        let even_carry_ends = even_carries & !self;
        let odd_carry_ends = odd_carries & !self;
        let even_start_odd_end = even_carry_ends & odd;
        let odd_start_even_end = odd_carry_ends & even;
        proof {
            lemma_escape_masks(even, flip, prev_ends_odd);
            lemma_escape_carries(self, prev_ends_odd, even_starts, odd_starts, start_edges, even_start_mask);
            lemma_wrapping_add_sum(self, even_starts, even_carries);
            lemma_wrapping_add_sum(self, odd_starts, odd_sum);
            assert forall|i: int| 0 <= i < 64 implies #[trigger] bit_of(even_start_odd_end | odd_start_even_end, i) == (odd_before(self, prev_ends_odd, i) && !bit_of(self, i)) by {
                crate::model::lemma_sum_bit(self, even_starts, i);
                crate::model::lemma_sum_bit(self, odd_starts, i);
                lemma_ripple_is_carries(self, even_starts, i);
                lemma_ripple_is_carries(self, odd_starts, i);
            }
            crate::model::lemma_sum_bit(self, odd_starts, 63);
            lemma_ripple_is_carries(self, odd_starts, 63);
        }
        (even_start_odd_end | odd_start_even_end, carry)
    }
}

/// One half of the Shannon expansion of a truth table: `b ? leaf(t >> 2)
/// : leaf(t)` bit by bit.
fn ternary_on_b(b: u64, c: u64, t: u8) -> (r: u64)
    ensures
        forall|i: int|
            0 <= i < 64 ==> #[trigger] bit_of(r, i) == table_bit(t, 2 * bit_num(b, i) + bit_num(c, i)),
{
    let r = (b & ternary_leaf(c, t >> 2u8)) | (!b & ternary_leaf(c, t));
    proof {
        assert forall|i: int| 0 <= i < 64 implies #[trigger] bit_of(r, i) == table_bit(
            t,
            2 * bit_num(b, i) + bit_num(c, i),
        ) by {
            lemma_table_bits(t, bit_num(c, i));
        }
    }
    r
}

/// Bit `i` of `x` as a number, `0` or `1`.
pub open spec fn bit_num(x: u64, i: int) -> int {
    if bit_of(x, i) {
        1
    } else {
        0
    }
}

/// The leaf of a truth table over the last input: the two low bits of `t`
/// say what `c = 0` and `c = 1` map to.
fn ternary_leaf(c: u64, t: u8) -> (r: u64)
    ensures
        forall|i: int| 0 <= i < 64 ==> #[trigger] bit_of(r, i) == table_bit(t, bit_num(c, i)),
{
    proof {
        lemma_table_bits(t, 0);
    }
    match t & 3 {
        0 => 0,
        1 => !c,
        2 => c,
        _ => 0xffff_ffff_ffff_ffff,
    }
}

/// The delta swap as a formula: `t = (x ^ (x >> s)) & mask`, then
/// `x ^ t ^ (t << s)`.
pub open spec fn delta_swap_of(x: u64, mask: u64, s: u64) -> u64 {
    x ^ ((x ^ (x >> s)) & mask) ^ (((x ^ (x >> s)) & mask) << s)
}

/// The end of the lowest run of set bits: its first clear bit above.
pub open spec fn run_end(x: u64) -> int {
    tz(!(x | low_mask(tz(x))))
}

/// Set bit `q` of `mask` reaches, through `factor`, a bit that `place` may
/// send it to: the factor holds the distance.
pub open spec fn carried<F: Fn(u32) -> u32>(place: F, mask: u64, factor: u64, q: int) -> bool {
    exists|t: u32|
        #[trigger] call_ensures(place, (count_below(mask, q) as u32,), t) && q <= t < 64 && bit_of(
            factor,
            t - q,
        )
}

/// `d` is the distance from some set bit of `mask` to a place `place` may
/// give it.
pub open spec fn is_distance<F: Fn(u32) -> u32>(place: F, mask: u64, d: int) -> bool {
    exists|q: int, t: u32|
        #[trigger] bit_of(mask, q) && #[trigger] call_ensures(place, (count_below(mask, q) as u32,), t)
            && d == t - q
}

/// Some set bit of `mask` may be sent below itself or past the top.
pub open spec fn misplaced<F: Fn(u32) -> u32>(place: F, mask: u64) -> bool {
    exists|q: int, t: u32|
        #[trigger] bit_of(mask, q) && #[trigger] call_ensures(place, (count_below(mask, q) as u32,), t)
            && (t < q || t >= 64)
}

proof fn lemma_carried_grow<F: Fn(u32) -> u32>(place: F, mask: u64, a: u64, b: u64, q: int)
    requires
        carried(place, mask, a, q),
        forall|k: int| #[trigger] bit_of(a, k) ==> bit_of(b, k),
    ensures
        carried(place, mask, b, q),
{
    let t = choose|t: u32| #[trigger] call_ensures(place, (count_below(mask, q) as u32,), t) && q <= t < 64 && bit_of(a, t - q);
    assert(bit_of(b, t - q));
}

/// Subtracting the mask from a subset is adding one after filling the gaps.
pub proof fn lemma_subset_step(s: u64, m: u64)
    requires
        s & m == s,
        s != m,
    ensures
        s & !m == 0,
        s.wrapping_sub(m) == ((s | !m) + 1) as u64,
        s | !m != 0xffff_ffff_ffff_ffffu64,
{
    assert forall|i: int| 0 <= i < 64 implies #[trigger] bit_of(s & !m, i) == bit_of(0u64, i) by {
        assert(bit_of(s & m, i) == bit_of(s, i));
    }
    lemma_bits_eq(s & !m, 0);
    crate::model::lemma_or_is_add(s, !m);
    lemma_not_is_sub(m);
    let d = m & !s;
    assert forall|i: int| 0 <= i < 64 implies #[trigger] bit_of(s & d, i) == bit_of(0u64, i) by {}
    lemma_bits_eq(s & d, 0);
    crate::model::lemma_or_is_add(s, d);
    assert forall|i: int| 0 <= i < 64 implies #[trigger] bit_of(s | d, i) == bit_of(m, i) by {
        assert(bit_of(s & m, i) == bit_of(s, i));
    }
    lemma_bits_eq(s | d, m);
    assert(s < m) by {
        if d == 0 {
            assert(s | 0u64 == s) by {
                assert forall|i: int| 0 <= i < 64 implies #[trigger] bit_of(s | 0u64, i) == bit_of(s, i) by {}
                lemma_bits_eq(s | 0u64, s);
            }
        }
    }
}

/// The subsets of a mask, ascending, from zero to the mask: the
/// carry-rippler, [`Bits::next_subset`] per step.
pub struct Subsets {
    pub mask: u64,
    pub next: Option<u64>,
}

impl Subsets {
    /// The subsets of `mask`, starting at the empty one.
    pub fn new(mask: u64) -> (r: Subsets)
        ensures
            r.mask == mask,
            r.next == Some(0u64),
    {
        Subsets { mask, next: Some(0) }
    }

    /// The current subset, then a step to the next one.
    pub fn next(&mut self) -> (r: Option<u64>)
        ensures
            r == old(self).next,
            final(self).mask == old(self).mask,
            r matches Some(x) ==> {
                &&& (x & old(self).mask == old(self).mask ==> final(self).next is None)
                &&& (x & old(self).mask != old(self).mask ==> (final(self).next matches Some(y) && y & !old(self).mask == 0
                    && forall|c: u64| #[trigger] is_pext(x & old(self).mask, old(self).mask, c) ==> is_pext(y, old(self).mask, (c + 1) as u64)))
            },
            r is None ==> final(self).next is None,
    {
        match self.next {
            None => None,
            Some(current) => {
                self.next = current.next_subset(self.mask);
                Some(current)
            },
        }
    }
}

/// A nonzero word has a set bit.
pub proof fn lemma_nonzero_has_bit(x: u64)
    requires
        x != 0,
    ensures
        exists|i: int| 0 <= i < 64 && #[trigger] bit_of(x, i),
{
    if forall|i: int| 0 <= i < 64 ==> !#[trigger] bit_of(x, i) {
        assert forall|i: int| 0 <= i < 64 implies #[trigger] bit_of(x, i) == bit_of(0u64, i) by {}
        lemma_bits_eq(x, 0);
    }
}

/// Clearing one set bit lowers the popcount by one.
proof fn lemma_count_drop_one(x: u64, y: u64, t: int)
    requires
        bit_of(x, t),
        forall|i: int| #[trigger] bit_of(y, i) == (bit_of(x, i) && i != t),
    ensures
        popcount(y) + 1 == popcount(x),
{
    lemma_count_drop_one_below(x, y, t, 64);
}

proof fn lemma_count_drop_one_below(x: u64, y: u64, t: int, n: int)
    requires
        bit_of(x, t),
        t < n,
        forall|i: int| #[trigger] bit_of(y, i) == (bit_of(x, i) && i != t),
    ensures
        count_below(y, n) + 1 == count_below(x, n),
    decreases n,
{
    if n - 1 > t {
        lemma_count_drop_one_below(x, y, t, n - 1);
    } else {
        crate::model::lemma_count_below_same(x, y, t);
    }
}


/// The truth table of a Boolean function of three words: `f(0xF0, 0xCC,
/// 0xAA)`. Bit `k` of those three bytes is bit 2, 1 and 0 of `k`, so across
/// their eight positions they enumerate the eight input combinations, and
/// the function evaluated once on them is its own table: the immediate that
/// [`Bits::ternary`] takes.
pub fn truth_table<F: Fn(u8, u8, u8) -> u8>(f: F) -> (r: u8)
    requires
        f.requires((0xF0u8, 0xCCu8, 0xAAu8)),
    ensures
        f.ensures((0xF0u8, 0xCCu8, 0xAAu8), r),
{
    f(0xF0, 0xCC, 0xAA)
}

/// Whether position `i` follows an odd run of set bits of `x`, the run
/// counted from the previous word when it reaches bit 0 and `p` says that
/// word ended in an odd run: the parity walk, one bit at a time.
pub open spec fn odd_before(x: u64, p: bool, i: int) -> bool
    decreases i,
{
    if i <= 0 {
        p
    } else if bit_of(x, i - 1) {
        !odd_before(x, p, i - 1)
    } else {
        false
    }
}

/// The carry into position `i` of `x + s`, rippled bit by bit; position
/// 64 is the carry out.
pub open spec fn ripple(x: u64, s: u64, i: int) -> bool
    decreases i,
{
    if i <= 0 {
        false
    } else {
        let a = bit_of(x, i - 1);
        let b = bit_of(s, i - 1);
        let c = ripple(x, s, i - 1);
        (a && b) || (a && c) || (b && c)
    }
}

/// The ripple is the adder's carry below the top.
proof fn lemma_ripple_is_carries(x: u64, s: u64, i: int)
    requires
        0 <= i < 64,
    ensures
        ripple(x, s, i) == bit_of(crate::model::carries(x, s), i),
    decreases i,
{
    crate::model::lemma_carry_at(x, s, 0);
    if i > 0 {
        lemma_ripple_is_carries(x, s, i - 1);
        crate::model::lemma_carry_at(x, s, i - 1);
    }
}

/// The wrapping sum is the truncated sum.
pub proof fn lemma_wrapping_add_sum(x: u64, y: u64, r: u64)
    requires
        r == x.wrapping_add(y),
    ensures
        r == (x + y) as u64,
{
    crate::model::lemma_wrapping_add_is_truncation(x, y, r);
}

/// The alternating masks: bit `i` of `0x55..55` is set at even `i`, and
/// the flip touches bit 0 only.
proof fn lemma_escape_masks(even: u64, flip: u64, p: bool)
    requires
        even == 0x5555_5555_5555_5555u64,
        flip == if p { 1u64 } else { 0u64 },
    ensures
        forall|i: int| 0 <= i < 64 ==> #[trigger] bit_of(even, i) == (i % 2 == 0),
        forall|i: int| 0 <= i < 64 ==> #[trigger] bit_of(flip, i) == (i == 0 && p),
{
    assert forall|i: int| 0 <= i < 64 implies #[trigger] bit_of(even, i) == (i % 2 == 0) by {
        let iu = i as u64;
        assert(((0x5555_5555_5555_5555u64 >> iu) & 1 == 1) == (iu % 2 == 0)) by (bit_vector)
            requires
                iu < 64,
        ;
    }
    assert forall|i: int| 0 <= i < 64 implies #[trigger] bit_of(flip, i) == (i == 0 && p) by {
        if p {
            crate::model::lemma_bit_single(0, i);
            assert(1u64 << 0u64 == 1u64) by (bit_vector);
        }
    }
}

/// The two additions against the parity walk: the carry into `i` from the
/// runs that start at even (odd) positions, and the walk's parity, agree
/// at every position up to the carry out.
proof fn lemma_escape_carries(x: u64, p: bool, es: u64, os: u64, edges: u64, mask: u64)
    requires
        forall|i: int| 0 <= i < 64 ==> #[trigger] bit_of(edges, i) == (bit_of(x, i) && !(i >= 1 && bit_of(x, i - 1))),
        forall|i: int| 0 <= i < 64 ==> #[trigger] bit_of(mask, i) == ((i % 2 == 0) != (i == 0 && p)),
        forall|i: int| 0 <= i < 64 ==> #[trigger] bit_of(es, i) == (bit_of(edges, i) && bit_of(mask, i)),
        forall|i: int| 0 <= i < 64 ==> #[trigger] bit_of(os, i) == (bit_of(edges, i) && !bit_of(mask, i)),
    ensures
        forall|i: int| 0 <= i <= 64 ==> #[trigger] odd_before(x, p, i) == ((i == 0 && p) || (i >= 1 && ((ripple(x, es, i) && i % 2 == 1) || (ripple(x, os, i) && i % 2 == 0)))),
        forall|i: int| 0 <= i <= 64 ==> (#[trigger] ripple(x, es, i) != ripple(x, os, i)) == (i >= 1 && bit_of(x, i - 1)),
        forall|i: int| 0 <= i <= 64 ==> !(#[trigger] ripple(x, es, i) && ripple(x, os, i)),
{
    assert forall|i: int| 0 <= i <= 64 implies #[trigger] odd_before(x, p, i) == ((i == 0 && p) || (i >= 1 && ((ripple(x, es, i) && i % 2 == 1) || (ripple(x, os, i) && i % 2 == 0)))) by {
        lemma_escape_step(x, p, es, os, edges, mask, i);
    }
    assert forall|i: int| 0 <= i <= 64 implies (#[trigger] ripple(x, es, i) != ripple(x, os, i)) == (i >= 1 && bit_of(x, i - 1)) by {
        lemma_escape_step(x, p, es, os, edges, mask, i);
    }
    assert forall|i: int| 0 <= i <= 64 implies !(#[trigger] ripple(x, es, i) && ripple(x, os, i)) by {
        lemma_escape_step(x, p, es, os, edges, mask, i);
    }
}

proof fn lemma_escape_step(x: u64, p: bool, es: u64, os: u64, edges: u64, mask: u64, n: int)
    requires
        0 <= n <= 64,
        forall|i: int| 0 <= i < 64 ==> #[trigger] bit_of(edges, i) == (bit_of(x, i) && !(i >= 1 && bit_of(x, i - 1))),
        forall|i: int| 0 <= i < 64 ==> #[trigger] bit_of(mask, i) == ((i % 2 == 0) != (i == 0 && p)),
        forall|i: int| 0 <= i < 64 ==> #[trigger] bit_of(es, i) == (bit_of(edges, i) && bit_of(mask, i)),
        forall|i: int| 0 <= i < 64 ==> #[trigger] bit_of(os, i) == (bit_of(edges, i) && !bit_of(mask, i)),
    ensures
        odd_before(x, p, n) == ((n == 0 && p) || (n >= 1 && ((ripple(x, es, n) && n % 2 == 1) || (ripple(x, os, n) && n % 2 == 0)))),
        (ripple(x, es, n) != ripple(x, os, n)) == (n >= 1 && bit_of(x, n - 1)),
        !(ripple(x, es, n) && ripple(x, os, n)),
    decreases n,
{
    if n > 0 {
        let i = n - 1;
        lemma_escape_step(x, p, es, os, edges, mask, i);
        assert(bit_of(edges, i) == (bit_of(x, i) && !(i >= 1 && bit_of(x, i - 1))));
        assert(bit_of(mask, i) == ((i % 2 == 0) != (i == 0 && p)));
        assert(bit_of(es, i) == (bit_of(edges, i) && bit_of(mask, i)));
        assert(bit_of(os, i) == (bit_of(edges, i) && !bit_of(mask, i)));
        if i >= 1 && !bit_of(x, i - 1) {
            assert(!ripple(x, es, i) && !ripple(x, os, i));
        }
    }
}
} // verus!

//! The threshold behind a range budget: which gaps between the runs of a
//! cover to close so that at most a given number of ranges remain. The
//! gaps are kept two to a pair of the output, which serves as scratch.
use vstd::prelude::*;
use crate::model::{bit_of, group_bits, lemma_top_bit, top_bit};

verus! {

broadcast use group_bits;

/// The words of a slice of pairs, two to a pair: word `i` is half `i % 2`
/// of pair `i / 2`.
pub open spec fn flat(v: Seq<(u64, u64)>) -> Seq<u64> {
    Seq::new(2 * v.len(), |i: int| if i % 2 == 0 { v[i / 2].0 } else { v[i / 2].1 })
}

/// How many of the words `a..b` of `s` satisfy `f`.
pub open spec fn cnt(s: Seq<u64>, a: int, b: int, f: spec_fn(u64) -> bool) -> int
    decreases b - a,
{
    if b <= a {
        0
    } else {
        cnt(s, a, b - 1, f) + if f(s[b - 1]) { 1int } else { 0int }
    }
}

/// Word `i` of the pairs.
pub fn get(v: &[(u64, u64)], i: usize) -> (r: u64)
    requires
        i < 2 * v@.len(),
    ensures
        r == flat(v@)[i as int],
{
    if i % 2 == 0 {
        v[i / 2].0
    } else {
        v[i / 2].1
    }
}

/// Writes word `i` of the pairs.
pub fn set(v: &mut [(u64, u64)], i: usize, x: u64)
    requires
        i < 2 * old(v)@.len(),
    ensures
        final(v)@.len() == old(v)@.len(),
        flat(final(v)@) == flat(old(v)@).update(i as int, x),
{
    let pair = v[i / 2];
    if i % 2 == 0 {
        v[i / 2] = (x, pair.1);
    } else {
        v[i / 2] = (pair.0, x);
    }
    proof {
        assert(flat(v@) =~= flat(old(v)@).update(i as int, x));
    }
}

/// Bits up to the highest set one; 0 for 0.
pub fn bitlen(v: u64) -> (r: u32)
    ensures
        r == top_bit(v) + 1,
        r <= 64,
{
    proof {
        lemma_top_bit(v);
    }
    64 - v.leading_zeros()
}

/// Counts split at any point between their ends.
pub proof fn lemma_cnt_split(s: Seq<u64>, a: int, b: int, c: int, f: spec_fn(u64) -> bool)
    requires
        a <= b <= c,
    ensures
        cnt(s, a, c, f) == cnt(s, a, b, f) + cnt(s, b, c, f),
    decreases c - b,
{
    if b < c {
        lemma_cnt_split(s, a, b, c - 1, f);
    }
}

/// A count is between zero and the length of its range.
pub proof fn lemma_cnt_bounds(s: Seq<u64>, a: int, b: int, f: spec_fn(u64) -> bool)
    ensures
        0 <= cnt(s, a, b, f),
        a <= b ==> cnt(s, a, b, f) <= b - a,
        (forall|i: int| a <= i < b ==> !f(#[trigger] s[i])) ==> cnt(s, a, b, f) == 0,
        a <= b && (forall|i: int| a <= i < b ==> f(#[trigger] s[i])) ==> cnt(s, a, b, f) == b - a,
    decreases b - a,
{
    if b > a {
        lemma_cnt_bounds(s, a, b - 1, f);
    }
}

/// Counts agree where the words and the predicates do.
pub proof fn lemma_cnt_same(s: Seq<u64>, t: Seq<u64>, a: int, b: int, f: spec_fn(u64) -> bool, g: spec_fn(u64) -> bool)
    requires
        forall|i: int| a <= i < b ==> #[trigger] f(s[i]) == g(t[i]),
    ensures
        cnt(s, a, b, f) == cnt(t, a, b, g),
    decreases b - a,
{
    if b > a {
        lemma_cnt_same(s, t, a, b - 1, f, g);
    }
}

/// Writing one word inside the range changes its count by what left and
/// what came.
pub proof fn lemma_cnt_update(s: Seq<u64>, a: int, b: int, i: int, x: u64, f: spec_fn(u64) -> bool)
    requires
        a <= i < b <= s.len(),
        0 <= a,
    ensures
        cnt(s.update(i, x), a, b, f) == cnt(s, a, b, f) - (if f(s[i]) { 1int } else { 0int }) + (if f(x) { 1int } else { 0int }),
    decreases b - a,
{
    if i < b - 1 {
        lemma_cnt_update(s, a, b - 1, i, x, f);
    } else {
        lemma_cnt_same(s.update(i, x), s, a, b - 1, f, f);
    }
}

/// Swapping two words of a range keeps every count of it.
pub proof fn lemma_cnt_swap(s: Seq<u64>, a: int, b: int, i: int, j: int, f: spec_fn(u64) -> bool)
    requires
        0 <= a <= i < b <= s.len(),
        a <= j < b,
    ensures
        cnt(s.update(i, s[j]).update(j, s[i]), a, b, f) == cnt(s, a, b, f),
{
    lemma_cnt_update(s, a, b, i, s[j], f);
    lemma_cnt_update(s.update(i, s[j]), a, b, j, s[i], f);
}

/// The `m`-th smallest (from 0) of the first `len` words of `v`, by
/// quickselect with the middle word as the pivot; reorders them.
fn select(v: &mut [(u64, u64)], len: usize, m: usize) -> (t: u64)
    requires
        m < len <= 2 * old(v)@.len(),
    ensures
        final(v)@.len() == old(v)@.len(),
        forall|f: spec_fn(u64) -> bool| #[trigger] cnt(flat(final(v)@), 0, len as int, f) == cnt(flat(old(v)@), 0, len as int, f),
        forall|i: int| len <= i < flat(old(v)@).len() ==> #[trigger] flat(final(v)@)[i] == flat(old(v)@)[i],
        flat(final(v)@)[m as int] == t,
        forall|a: int| 0 <= a < m ==> #[trigger] flat(final(v)@)[a] <= t,
        forall|a: int| m < a < len ==> #[trigger] flat(final(v)@)[a] >= t,
{
    let ghost orig = flat(v@);
    let mut lo: usize = 0;
    let mut hi: usize = len - 1;
    let ghost mut low: u64 = 0;
    let ghost mut high: u64 = 0xffff_ffff_ffff_ffff;
    loop
        invariant
            v@.len() == old(v)@.len(),
            m < len <= 2 * v@.len(),
            orig == flat(old(v)@),
            lo <= m <= hi < len,
            forall|f: spec_fn(u64) -> bool| #[trigger] cnt(flat(v@), 0, len as int, f) == cnt(orig, 0, len as int, f),
            forall|i: int| len <= i < orig.len() ==> #[trigger] flat(v@)[i] == orig[i],
            forall|a: int| 0 <= a < lo ==> #[trigger] flat(v@)[a] <= low,
            forall|a: int| lo <= a <= hi ==> low <= #[trigger] flat(v@)[a] <= high,
            forall|a: int| hi < a < len ==> #[trigger] flat(v@)[a] >= high,
        decreases hi - lo,
    {
        if lo == hi {
            return get(v, lo);
        }
        let pivot = get(v, lo + (hi - lo) / 2);
        let ghost at = (lo + (hi - lo) / 2) as int;
        let mut lt: usize = lo;
        let mut i: usize = lo;
        let mut gt: usize = hi;
        proof {
            assert(flat(v@)[at] == pivot);
        }
        while i <= gt
            invariant
                v@.len() == old(v)@.len(),
                m < len <= 2 * v@.len(),
                orig == flat(old(v)@),
                lo <= m <= hi < len,
                lo <= lt <= i,
                i <= gt + 1,
                gt <= hi,
                low <= pivot <= high,
                forall|f: spec_fn(u64) -> bool| #[trigger] cnt(flat(v@), 0, len as int, f) == cnt(orig, 0, len as int, f),
                forall|ii: int| len <= ii < orig.len() ==> #[trigger] flat(v@)[ii] == orig[ii],
                forall|a: int| 0 <= a < lo ==> #[trigger] flat(v@)[a] <= low,
                forall|a: int| lo <= a <= hi ==> low <= #[trigger] flat(v@)[a] <= high,
                forall|a: int| hi < a < len ==> #[trigger] flat(v@)[a] >= high,
                forall|a: int| lo <= a < lt ==> #[trigger] flat(v@)[a] < pivot,
                forall|a: int| lt <= a < i ==> #[trigger] flat(v@)[a] == pivot,
                forall|a: int| gt < a <= hi ==> #[trigger] flat(v@)[a] > pivot,
                exists|a: int| lt <= a <= gt && #[trigger] flat(v@)[a] == pivot,
            decreases gt + 1 - i,
        {
            let x = get(v, i);
            let ghost before = flat(v@);
            if x < pivot {
                let y = get(v, lt);
                set(v, lt, x);
                set(v, i, y);
                proof {
                    lemma_swap_counts(before, lt as int, i as int, len as int);
                    assert(flat(v@) == before.update(lt as int, before[i as int]).update(i as int, before[lt as int]));
                    let w = choose|a: int| lt <= a <= gt && #[trigger] before[a] == pivot;
                    if lt < i {
                        assert(flat(v@)[i as int] == pivot);
                    } else {
                        assert(w != i);
                        assert(flat(v@)[w] == pivot);
                    }
                }
                lt = lt + 1;
                i = i + 1;
            } else if x > pivot {
                let y = get(v, gt);
                set(v, gt, x);
                set(v, i, y);
                proof {
                    lemma_swap_counts(before, gt as int, i as int, len as int);
                    assert(flat(v@) == before.update(gt as int, before[i as int]).update(i as int, before[gt as int]));
                    let w = choose|a: int| lt <= a <= gt && #[trigger] before[a] == pivot;
                    assert(w != i);
                    if w == gt {
                        assert(flat(v@)[i as int] == pivot);
                    } else {
                        assert(flat(v@)[w] == pivot);
                    }
                }
                gt = gt - 1;
            } else {
                i = i + 1;
            }
        }
        if m < lt {
            proof {
                low = low;
                high = pivot;
            }
            hi = lt - 1;
        } else if m > gt {
            proof {
                low = pivot;
            }
            lo = gt + 1;
        } else {
            return pivot;
        }
    }
}

/// Swapping two words of the first `len` keeps every count over them.
proof fn lemma_swap_counts(s: Seq<u64>, i: int, j: int, len: int)
    requires
        0 <= i < len <= s.len(),
        0 <= j < len,
    ensures
        forall|f: spec_fn(u64) -> bool| #[trigger] cnt(s.update(i, s[j]).update(j, s[i]), 0, len, f) == cnt(s, 0, len, f),
{
    assert forall|f: spec_fn(u64) -> bool| #[trigger] cnt(s.update(i, s[j]).update(j, s[i]), 0, len, f) == cnt(s, 0, len, f) by {
        lemma_cnt_swap(s, 0, len, i, j, f);
    }
}


/// All of a range satisfy `f` when the count is its length.
pub proof fn lemma_cnt_full(s: Seq<u64>, a: int, b: int, f: spec_fn(u64) -> bool)
    requires
        a <= b,
        cnt(s, a, b, f) == b - a,
    ensures
        forall|i: int| a <= i < b ==> f(#[trigger] s[i]),
    decreases b - a,
{
    if a < b {
        lemma_cnt_bounds(s, a, b - 1, f);
        lemma_cnt_full(s, a, b - 1, f);
    }
}

/// A count over a predicate that is one of two disjoint ones is the sum.
pub proof fn lemma_cnt_or(s: Seq<u64>, a: int, b: int, f: spec_fn(u64) -> bool, g: spec_fn(u64) -> bool, h: spec_fn(u64) -> bool)
    requires
        forall|i: int| a <= i < b ==> #[trigger] h(s[i]) == (f(s[i]) || g(s[i])),
        forall|i: int| a <= i < b ==> !(f(#[trigger] s[i]) && g(s[i])),
    ensures
        cnt(s, a, b, h) == cnt(s, a, b, f) + cnt(s, a, b, g),
    decreases b - a,
{
    if a < b {
        lemma_cnt_or(s, a, b - 1, f, g, h);
    }
}

/// A count can only grow with a weaker predicate.
pub proof fn lemma_cnt_mono(s: Seq<u64>, a: int, b: int, f: spec_fn(u64) -> bool, g: spec_fn(u64) -> bool)
    requires
        forall|i: int| a <= i < b ==> f(#[trigger] s[i]) ==> g(s[i]),
    ensures
        cnt(s, a, b, f) <= cnt(s, a, b, g),
    decreases b - a,
{
    if a < b {
        lemma_cnt_mono(s, a, b - 1, f, g);
    }
}

/// The bit length of a word: one past its highest set bit.
pub open spec fn blen(g: u64) -> int {
    top_bit(g) + 1
}

/// The class of a word of bit length `bits` inside its bucket: the three
/// bits under the leading one, or the word itself below 16.
pub open spec fn class_of(g: u64, bits: u32) -> u64 {
    ((if bits > 4 { g >> ((bits - 4) as u64) } else { g }) & 0xff) & 7
}

/// The words of bit length `bits` and class `c`.
pub open spec fn in_class(bits: u32, c: int) -> spec_fn(u64) -> bool {
    |g: u64| blen(g) == bits && class_of(g, bits) == c
}

/// The words below class `c` of bit length `bits`: shorter, or as long and
/// of a lower class.
pub open spec fn below_class(bits: u32, c: int) -> spec_fn(u64) -> bool {
    |g: u64| blen(g) < bits || (blen(g) == bits && class_of(g, bits) < c)
}

/// The class of a gap, as the threshold computes it.
fn class(g: u64, bits: u32) -> (r: usize)
    requires
        bits <= 64,
    ensures
        r == class_of(g, bits),
        r < 8,
{
    let c = if bits > 4 { g >> (bits - 4) } else { g };
    proof {
        lemma_class_lt8(g, bits);
    }
    ((c & 0xff) & 7) as usize
}

/// A class is one of eight.
proof fn lemma_class_lt8(g: u64, bits: u32)
    ensures
        class_of(g, bits) < 8,
{
    let x = if bits > 4 { g >> ((bits - 4) as u64) } else { g };
    assert((x & 0xff) & 7 < 8) by (bit_vector);
}

/// The top bit of a nonzero word, shifted down, is one.
proof fn lemma_top_shift(g: u64)
    requires
        g != 0,
    ensures
        g >> (top_bit(g) as u64) == 1,
{
    lemma_top_bit(g);
    let t = top_bit(g) as u64;
    assert forall|i: int| 0 <= i < 64 implies #[trigger] bit_of(g >> t, i) == bit_of(1u64, i) by {}
    crate::model::lemma_bits_eq(g >> t, 1);
}

/// Within one bit length the classes are in order.
proof fn lemma_class_order_raw(g: u64, h: u64, bits: u64)
    by (bit_vector)
    requires
        1 <= bits <= 64,
        g >> ((bits - 1) as u64) == 1,
        h >> ((bits - 1) as u64) == 1,
        g <= h,
    ensures
        ((if bits > 4 { g >> ((bits - 4) as u64) } else { g }) & 0xff) & 7 <= ((if bits > 4 { h >> ((bits - 4) as u64) } else { h }) & 0xff) & 7,
{
}

/// Words order first by bit length, then by class within one.
pub proof fn lemma_gap_order(g: u64, h: u64, bits: u32)
    requires
        bits <= 64,
    ensures
        blen(g) < blen(h) ==> g < h,
        blen(g) == bits && blen(h) == bits && class_of(g, bits) < class_of(h, bits) ==> g < h,
{
    lemma_top_bit(g);
    lemma_top_bit(h);
    if blen(g) < blen(h) {
        crate::model::lemma_top_bit_bounds(h);
        if g != 0 {
            crate::model::lemma_top_bit_bounds(g);
            if top_bit(g) + 1 < top_bit(h) {
                vstd::arithmetic::power2::lemma_pow2_strictly_increases((top_bit(g) + 1) as nat, top_bit(h) as nat);
            }
        }
    }
    if blen(g) == bits && blen(h) == bits && g > h {
        assert(bits >= 1);
        lemma_top_shift(g);
        lemma_top_shift(h);
        lemma_class_order_raw(h, g, bits as u64);
    }
}

/// The `close`-th smallest (from 1) of the first `gaps` words of `v`, and
/// how many equal to it are among the `close` smallest, with the bit
/// lengths of those words counted in `lengths` and `least` none above the
/// least of them. Reorders the words.
///
/// The classes of an offset allocator: the bit length names the bucket and
/// how many lie below; the three bits under the leading one split the
/// bucket in eight, counted here with the least and greatest of each. Only
/// a class of several values is gathered for a select.
#[verifier::spinoff_prover]
#[verifier::rlimit(40)]
pub fn threshold(v: &mut [(u64, u64)], gaps: usize, bucket: (&[u32; 129], u32), close: usize) -> (r: (u64, usize))
    requires
        1 <= close <= gaps <= 2 * old(v)@.len(),
        forall|b: int| 0 <= b < 129 ==> #[trigger] bucket.0[b] == cnt(flat(old(v)@), 0, gaps as int, |g: u64| blen(g) == b),
        forall|i: int| 0 <= i < gaps ==> bucket.1 <= blen(#[trigger] flat(old(v)@)[i]),
    ensures
        final(v)@.len() == old(v)@.len(),
        cnt(flat(old(v)@), 0, gaps as int, |g: u64| g < r.0) < close <= cnt(flat(old(v)@), 0, gaps as int, |g: u64| g <= r.0),
        r.1 == close - cnt(flat(old(v)@), 0, gaps as int, |g: u64| g < r.0),
        forall|f: spec_fn(u64) -> bool| #[trigger] cnt(flat(final(v)@), 0, gaps as int, f) == cnt(flat(old(v)@), 0, gaps as int, f),
        forall|i: int| gaps <= i < flat(old(v)@).len() ==> #[trigger] flat(final(v)@)[i] == flat(old(v)@)[i],
{
    let ghost g0 = flat(v@);
    let lengths = bucket.0;
    let least = bucket.1;
    let mut below: usize = 0;
    let mut b: usize = least as usize;
    proof {
        lemma_cnt_bounds(g0, 0, gaps as int, |g: u64| blen(g) < least);
        assert forall|i: int| 0 <= i < gaps implies (|g: u64| blen(g) <= 64)(#[trigger] g0[i]) by {
            lemma_top_bit(g0[i]);
        }
        lemma_cnt_bounds(g0, 0, gaps as int, |g: u64| blen(g) <= 64);
        lemma_cnt_bounds(g0, 0, gaps as int, |g: u64| blen(g) < 65);
        assert forall|i: int| 0 <= i < gaps implies !(|g: u64| blen(g) < least)(#[trigger] g0[i]) by {}
        if least > 64 {
            assert(g0[0] == g0[0]);
            lemma_top_bit(g0[0]);
        }
        lemma_cnt_or(g0, 0, gaps as int, |g: u64| blen(g) < least, |g: u64| blen(g) == least, |g: u64| blen(g) < least + 1);
        lemma_cnt_bounds(g0, 0, gaps as int, |g: u64| blen(g) < least + 1);
    }
    while below + (lengths[b] as usize) < close
        invariant
            least as int <= b <= 64,
            1 <= close <= gaps <= 2 * v@.len(),
            g0 == flat(v@),
            forall|bb: int| 0 <= bb < 129 ==> #[trigger] lengths[bb] == cnt(g0, 0, gaps as int, |g: u64| blen(g) == bb),
            below == cnt(g0, 0, gaps as int, |g: u64| blen(g) < b),
            below + lengths[b as int] == cnt(g0, 0, gaps as int, |g: u64| blen(g) < b + 1),
            cnt(g0, 0, gaps as int, |g: u64| blen(g) < b + 1) <= gaps,
            below < close,
            cnt(g0, 0, gaps as int, |g: u64| blen(g) < 65) == gaps,
        decreases 64 - b,
    {
        proof {
            lemma_cnt_or(g0, 0, gaps as int, |g: u64| blen(g) < b, |g: u64| blen(g) == b, |g: u64| blen(g) < b + 1);
            if b == 64 {
                assert forall|i: int| 0 <= i < gaps implies (|g: u64| blen(g) < 65)(#[trigger] g0[i]) == (|g: u64| blen(g) < b + 1)(g0[i]) by {}
                lemma_cnt_same(g0, g0, 0, gaps as int, |g: u64| blen(g) < 65, |g: u64| blen(g) < b + 1);
            }
        }
        below = below + lengths[b] as usize;
        b = b + 1;
        proof {
            lemma_cnt_or(g0, 0, gaps as int, |g: u64| blen(g) < b, |g: u64| blen(g) == b, |g: u64| blen(g) < b + 1);
            lemma_cnt_bounds(g0, 0, gaps as int, |g: u64| blen(g) < b + 1);
        }
    }
    proof {
        lemma_cnt_or(g0, 0, gaps as int, |g: u64| blen(g) < b, |g: u64| blen(g) == b, |g: u64| blen(g) < b + 1);
        lemma_cnt_bounds(g0, 0, gaps as int, |g: u64| blen(g) == b);
    }
    let mut need: usize = close - below;
    let bits = b as u32;
    let mut count: [usize; 8] = [0; 8];
    let mut lo: [u64; 8] = [0xffff_ffff_ffff_ffff; 8];
    let mut hi: [u64; 8] = [0; 8];
    let mut i: usize = 0;
    while i < gaps
        invariant
            1 <= close <= gaps <= 2 * v@.len(),
            g0 == flat(v@),
            bits <= 64,
            i <= gaps,
            forall|c: int| 0 <= c < 8 ==> #[trigger] count[c] == cnt(g0, 0, i as int, in_class(bits, c)),
            forall|c: int, a: int| #![trigger lo[c], g0[a]] 0 <= c < 8 && 0 <= a < i && (in_class(bits, c))(g0[a]) ==> lo[c] <= g0[a] <= hi[c],
            forall|c: int| 0 <= c < 8 && #[trigger] count[c] > 0 ==> exists|a: int| 0 <= a < i && (in_class(bits, c))(#[trigger] g0[a]) && g0[a] == lo[c],
            forall|c: int| 0 <= c < 8 && #[trigger] count[c] == 0 ==> lo[c] == 0xffff_ffff_ffff_ffffu64,
            forall|c: int| 0 <= c < 8 ==> #[trigger] count[c] <= i,
        decreases gaps - i,
    {
        let ghost old_count = count;
        let ghost old_lo = lo;
        let ghost old_hi = hi;
        assert(forall|cc: int, a: int| #![trigger old_lo[cc], g0[a]] 0 <= cc < 8 && 0 <= a < i
            && (in_class(bits, cc))(g0[a]) ==> old_lo[cc] <= g0[a] <= old_hi[cc]);
        let g = get(v, i);
        if bitlen(g) == bits {
            let c = class(g, bits);
            proof {
                lemma_cnt_bounds(g0, 0, i as int, in_class(bits, c as int));
            }
            count[c] = count[c] + 1;
            if g < lo[c] {
                lo[c] = g;
            }
            if g > hi[c] {
                hi[c] = g;
            }
        }
        proof {
            lemma_top_bit(g);
            lemma_class_lt8(g, bits);
            assert forall|cc: int| 0 <= cc < 8 implies #[trigger] count[cc] == cnt(g0, 0, i + 1, in_class(bits, cc)) by {
                assert(cnt(g0, 0, i + 1, in_class(bits, cc)) == cnt(g0, 0, i as int, in_class(bits, cc)) + if (in_class(bits, cc))(g0[i as int]) { 1int } else { 0int });
            }
            assert forall|cc: int| 0 <= cc < 8 && #[trigger] count[cc] > 0 implies exists|a: int| 0 <= a < i + 1 && (in_class(bits, cc))(#[trigger] g0[a]) && g0[a] == lo[cc] by {
                if (in_class(bits, cc))(g0[i as int]) && g0[i as int] == lo[cc] {
                    assert((in_class(bits, cc))(g0[i as int]) && g0[i as int] == lo[cc]);
                } else {
                    assert(old_count[cc] > 0);
                    assert(lo[cc] == old_lo[cc]);
                    let a = choose|a: int| 0 <= a < i && (in_class(bits, cc))(#[trigger] g0[a]) && g0[a] == old_lo[cc];
                    assert(0 <= a < i + 1 && (in_class(bits, cc))(g0[a]) && g0[a] == lo[cc]);
                }
            }
            assert forall|cc: int, a: int| #![trigger lo[cc], g0[a]] 0 <= cc < 8 && 0 <= a < i + 1 && (in_class(bits, cc))(g0[a]) implies lo[cc] <= g0[a] <= hi[cc] by {
                if a < i {
                    assert(old_lo[cc] <= g0[a] <= old_hi[cc]);
                }
            }
        }
        i = i + 1;
    }
    proof {
        assert forall|ii: int| 0 <= ii < gaps implies (below_class(bits, 0))(#[trigger] g0[ii]) == (|g: u64| blen(g) < b)(g0[ii]) by {
            assert(class_of(g0[ii], bits) >= 0);
        }
        lemma_cnt_same(g0, g0, 0, gaps as int, below_class(bits, 0), |g: u64| blen(g) < b);
    }
    let mut c: usize = 0;
    while count[c] < need
        invariant
            1 <= close <= gaps,
            1 <= need,
            c < 8,
            bits <= 64,
            forall|cc: int| 0 <= cc < 8 ==> #[trigger] count[cc] == cnt(g0, 0, gaps as int, in_class(bits, cc)),
            cnt(g0, 0, gaps as int, below_class(bits, c as int)) + need == close,
            cnt(g0, 0, gaps as int, |g: u64| blen(g) < bits + 1) >= close,
        decreases 8 - c,
    {
        proof {
            lemma_cnt_or(g0, 0, gaps as int, below_class(bits, c as int), in_class(bits, c as int), below_class(bits, c + 1));
            if c == 7 {
                assert forall|ii: int| 0 <= ii < gaps implies (below_class(bits, 8))(#[trigger] g0[ii]) == (|g: u64| blen(g) < bits + 1)(g0[ii]) by {
                    lemma_class_lt8(g0[ii], bits);
                }
                lemma_cnt_same(g0, g0, 0, gaps as int, below_class(bits, 8), |g: u64| blen(g) < bits + 1);
            }
        }
        need = need - count[c];
        c = c + 1;
    }
    proof {
        lemma_class_split(g0, gaps as int, bits, c as int, close as int, need as int);
    }
    if lo[c] == hi[c] {
        proof {
            let t = lo[c as int];
            let a0 = choose|a: int| 0 <= a < gaps && (in_class(bits, c as int))(#[trigger] g0[a]) && g0[a] == lo[c as int];
            assert forall|ii: int| 0 <= ii < gaps implies (|g: u64| g < t)(#[trigger] g0[ii]) == (below_class(bits, c as int))(g0[ii]) by {
                lemma_gap_order(g0[ii], t, bits);
                lemma_gap_order(t, g0[ii], bits);
                if (in_class(bits, c as int))(g0[ii]) {
                    assert(lo[c as int] <= g0[ii] <= hi[c as int]);
                }
            }
            lemma_cnt_same(g0, g0, 0, gaps as int, |g: u64| g < t, below_class(bits, c as int));
            assert forall|ii: int| 0 <= ii < gaps implies (|g: u64| g <= t)(#[trigger] g0[ii]) == (below_class(bits, c as int + 1))(g0[ii]) by {
                lemma_gap_order(g0[ii], t, bits);
                lemma_gap_order(t, g0[ii], bits);
                if (in_class(bits, c as int))(g0[ii]) {
                    assert(lo[c as int] <= g0[ii] <= hi[c as int]);
                }
            }
            lemma_cnt_same(g0, g0, 0, gaps as int, |g: u64| g <= t, below_class(bits, c as int + 1));
            lemma_cnt_or(g0, 0, gaps as int, below_class(bits, c as int), in_class(bits, c as int), below_class(bits, c + 1));
        }
        return (lo[c], need);
    }
    let mut k: usize = 0;
    let mut j: usize = 0;
    while j < gaps
        invariant
            1 <= close <= gaps <= 2 * v@.len(),
            v@.len() == old(v)@.len(),
            g0 == flat(old(v)@),
            bits <= 64,
            c < 8,
            k <= j <= gaps,
            forall|f: spec_fn(u64) -> bool| #[trigger] cnt(flat(v@), 0, gaps as int, f) == cnt(g0, 0, gaps as int, f),
            forall|ii: int| j <= ii < flat(v@).len() ==> #[trigger] flat(v@)[ii] == g0[ii],
            forall|a: int| 0 <= a < k ==> (in_class(bits, c as int))(#[trigger] flat(v@)[a]),
            forall|a: int| k <= a < j ==> !(in_class(bits, c as int))(#[trigger] flat(v@)[a]),
        decreases gaps - j,
    {
        let g = get(v, j);
        if bitlen(g) == bits && class(g, bits) == c {
            let ghost before = flat(v@);
            let y = get(v, k);
            set(v, j, y);
            set(v, k, g);
            proof {
                lemma_swap_counts(before, k as int, j as int, gaps as int);
                assert(flat(v@) == before.update(k as int, before[j as int]).update(j as int, before[k as int]) || flat(v@) == before.update(j as int, before[k as int]).update(k as int, before[j as int]));
                assert(flat(v@) == before.update(j as int, before[k as int]).update(k as int, before[j as int]));
                if k < j {
                    assert(flat(v@) =~= before.update(k as int, before[j as int]).update(j as int, before[k as int]));
                } else {
                    assert(flat(v@) =~= before);
                }
            }
            k = k + 1;
        }
        j = j + 1;
    }
    proof {
        lemma_gathered(g0, flat(v@), gaps as int, k as int, in_class(bits, c as int));
    }
    let ghost pre = flat(v@);
    let t = select(v, k, need - 1);
    let ghost after = flat(v@);
    proof {
        lemma_cnt_bounds(pre, 0, k as int, in_class(bits, c as int));
        assert(cnt(after, 0, k as int, in_class(bits, c as int)) == cnt(pre, 0, k as int, in_class(bits, c as int)));
        lemma_cnt_full(after, 0, k as int, in_class(bits, c as int));
        lemma_prefix_perm(pre, after, k as int, gaps as int);
        assert forall|f: spec_fn(u64) -> bool| #[trigger] cnt(after, 0, gaps as int, f) == cnt(g0, 0, gaps as int, f) by {
            assert(cnt(after, 0, gaps as int, f) == cnt(pre, 0, gaps as int, f));
            assert(cnt(pre, 0, gaps as int, f) == cnt(g0, 0, gaps as int, f));
        }
    }
    let mut less: usize = 0;
    let mut a: usize = 0;
    while a < k
        invariant
            a <= k <= gaps <= 2 * v@.len(),
            after == flat(v@),
            less == cnt(after, 0, a as int, |g: u64| g < t),
        decreases k - a,
    {
        proof {
            lemma_cnt_bounds(after, 0, a as int, |g: u64| g < t);
        }
        if get(v, a) < t {
            less = less + 1;
        }
        a = a + 1;
    }
    proof {
        lemma_threshold_select(g0, after, gaps as int, k as int, bits, c as int, close as int, need as int, t, less as int);
    }
    (t, need - less)
}

/// Once the walk over the classes stops: the class holds the word sought,
/// and what lies below it counts `close - need`.
proof fn lemma_class_split(g0: Seq<u64>, gaps: int, bits: u32, c: int, close: int, need: int)
    requires
        0 <= c < 8,
        bits <= 64,
        1 <= need,
        cnt(g0, 0, gaps, |g: u64| blen(g) < bits || (blen(g) == bits && class_of(g, bits) < c)) + need == close,
        need <= cnt(g0, 0, gaps, |g: u64| blen(g) == bits && class_of(g, bits) == c),
    ensures
        exists|a: int| 0 <= a < gaps && (|g: u64| blen(g) == bits && class_of(g, bits) == c)(#[trigger] g0[a]),
{
    let f = |g: u64| blen(g) == bits && class_of(g, bits) == c;
    if !(exists|a: int| 0 <= a < gaps && f(#[trigger] g0[a])) {
        lemma_cnt_bounds(g0, 0, gaps, f);
    }
}

/// Gathered to the front: the first `k` words are exactly the words of the
/// class, as many as the class has.
proof fn lemma_gathered(g0: Seq<u64>, s: Seq<u64>, gaps: int, k: int, f: spec_fn(u64) -> bool)
    requires
        0 <= k <= gaps <= s.len(),
        forall|h: spec_fn(u64) -> bool| #[trigger] cnt(s, 0, gaps, h) == cnt(g0, 0, gaps, h),
        forall|a: int| 0 <= a < k ==> f(#[trigger] s[a]),
        forall|a: int| k <= a < gaps ==> !f(#[trigger] s[a]),
    ensures
        k == cnt(g0, 0, gaps, f),
{
    lemma_cnt_split(s, 0, k, gaps, f);
    lemma_cnt_bounds(s, 0, k, f);
    lemma_cnt_bounds(s, k, gaps, f);
    assert(cnt(s, 0, gaps, f) == cnt(g0, 0, gaps, f));
}

/// The select inside the class finishes the threshold: the word it names
/// is the `close`-th smallest overall, and the ties are counted.
proof fn lemma_threshold_select(g0: Seq<u64>, after: Seq<u64>, gaps: int, k: int, bits: u32, c: int, close: int, need: int, t: u64, less: int)
    requires
        bits <= 64,
        0 <= c < 8,
        1 <= need <= k <= gaps <= after.len(),
        forall|h: spec_fn(u64) -> bool| #[trigger] cnt(after, 0, gaps, h) == cnt(g0, 0, gaps, h),
        forall|a: int| 0 <= a < k ==> (|g: u64| blen(g) == bits && class_of(g, bits) == c)(#[trigger] after[a]),
        forall|a: int| k <= a < gaps ==> !(|g: u64| blen(g) == bits && class_of(g, bits) == c)(#[trigger] after[a]),
        cnt(g0, 0, gaps, |g: u64| blen(g) < bits || (blen(g) == bits && class_of(g, bits) < c)) + need == close,
        after[need - 1] == t,
        forall|a: int| 0 <= a < need - 1 ==> #[trigger] after[a] <= t,
        forall|a: int| need - 1 < a < k ==> #[trigger] after[a] >= t,
        less == cnt(after, 0, k, |g: u64| g < t),
    ensures
        cnt(g0, 0, gaps, |g: u64| g < t) < close <= cnt(g0, 0, gaps, |g: u64| g <= t),
        close - cnt(g0, 0, gaps, |g: u64| g < t) == need - less,
{
    let inc = |g: u64| blen(g) == bits && class_of(g, bits) == c;
    let lower = |g: u64| blen(g) < bits || (blen(g) == bits && class_of(g, bits) < c);
    let lt = |g: u64| g < t;
    let le = |g: u64| g <= t;
    assert(inc(t));
    // Outside the class a word is below `t` exactly when its class is.
    assert forall|a: int| k <= a < gaps implies lt(#[trigger] after[a]) == lower(after[a]) by {
        lemma_gap_order(after[a], t, bits);
        lemma_gap_order(t, after[a], bits);
    }
    assert forall|a: int| k <= a < gaps implies le(#[trigger] after[a]) == lower(after[a]) by {
        lemma_gap_order(after[a], t, bits);
        lemma_gap_order(t, after[a], bits);
    }
    lemma_cnt_same(after, after, k, gaps, lt, lower);
    lemma_cnt_same(after, after, k, gaps, le, lower);
    // Inside it no word is lower.
    lemma_cnt_bounds(after, 0, k, lower);
    assert forall|a: int| 0 <= a < k implies !lower(#[trigger] after[a]) by {}
    lemma_cnt_split(after, 0, k, gaps, lt);
    lemma_cnt_split(after, 0, k, gaps, le);
    lemma_cnt_split(after, 0, k, gaps, lower);
    // Below the select's position every word is at most `t`, from it on
    // none is below.
    lemma_cnt_split(after, 0, need - 1, k, lt);
    lemma_cnt_bounds(after, need - 1, k, lt);
    assert forall|a: int| need - 1 <= a < k implies !lt(#[trigger] after[a]) by {}
    lemma_cnt_bounds(after, 0, need - 1, lt);
    lemma_cnt_split(after, 0, need, k, le);
    lemma_cnt_bounds(after, 0, need, le);
    assert forall|a: int| 0 <= a < need implies le(#[trigger] after[a]) by {}
    lemma_cnt_bounds(after, need, k, le);
}

/// Counts over the first `k` words that agree, with the words from `k` on
/// unchanged, agree over any longer prefix.
proof fn lemma_prefix_perm(pre: Seq<u64>, after: Seq<u64>, k: int, n: int)
    requires
        0 <= k <= n <= pre.len(),
        after.len() == pre.len(),
        forall|f: spec_fn(u64) -> bool| #[trigger] cnt(after, 0, k, f) == cnt(pre, 0, k, f),
        forall|i: int| k <= i < pre.len() ==> #[trigger] after[i] == pre[i],
    ensures
        forall|f: spec_fn(u64) -> bool| #[trigger] cnt(after, 0, n, f) == cnt(pre, 0, n, f),
{
    assert forall|f: spec_fn(u64) -> bool| #[trigger] cnt(after, 0, n, f) == cnt(pre, 0, n, f) by {
        lemma_cnt_split(after, 0, k, n, f);
        lemma_cnt_split(pre, 0, k, n, f);
        lemma_cnt_same(after, pre, k, n, f, f);
        assert(cnt(after, 0, k, f) == cnt(pre, 0, k, f));
    }
}
} // verus!

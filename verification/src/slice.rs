//! Bit-set operations over a slice of words: the index-free layer between
//! single-word combinators and a real succinct structure.
//!
//! [`Words`] puts them on `[u64]` itself, so a slice, an array or a `Vec` of
//! words answers `rank` and `select` the way a word does. Positions are
//! absolute bit indices (`word_index * 64 + bit`).
use vstd::prelude::*;
use crate::bits::{run_at, Bits};
use crate::model::{bit_of, count_below, group_bits, popcount, tz};
use crate::word::Word;

verus! {

broadcast use group_bits;

/// Position `p` of the slice `s`: bit `p % 64` of word `p / 64`.
pub open spec fn sbit(s: Seq<u64>, p: int) -> bool {
    0 <= p < 64 * s.len() && bit_of(s[p / 64], p % 64)
}

/// The number of set bits in the first `n` words.
pub open spec fn words_pop(s: Seq<u64>, n: int) -> int
    decreases n,
{
    if n <= 0 {
        0
    } else {
        words_pop(s, n - 1) + popcount(s[n - 1]) as int
    }
}

/// The number of set positions below `i`; everything past the end.
pub open spec fn srank(s: Seq<u64>, i: int) -> int {
    if i >= 64 * s.len() {
        words_pop(s, s.len() as int)
    } else if i <= 0 {
        0
    } else {
        words_pop(s, i / 64) + count_below(s[i / 64], i % 64) as int
    }
}

/// Bits `p..p + k` of the slice are all set, inside the slice.
pub open spec fn srun(s: Seq<u64>, p: int, k: int) -> bool {
    &&& 0 <= p
    &&& p + k <= 64 * s.len()
    &&& forall|b: int| p <= b < p + k ==> #[trigger] sbit(s, b)
}

pub proof fn lemma_words_pop_bounds(s: Seq<u64>, n: int)
    requires
        0 <= n <= s.len(),
    ensures
        0 <= words_pop(s, n) <= 64 * n,
        forall|m: int| 0 <= m <= n ==> words_pop(s, m) <= #[trigger] words_pop(s, n),
    decreases n,
{
    if n > 0 {
        lemma_words_pop_bounds(s, n - 1);
        crate::model::lemma_count_below_bounds(s[n - 1], 64);
    }
}

pub proof fn lemma_div64(p: int)
    requires
        0 <= p,
    ensures
        p == 64 * (p / 64) + p % 64,
        0 <= p % 64 < 64,
{
}

/// The rank counts the positions below it, one at a time.
pub proof fn lemma_srank_step(s: Seq<u64>, p: int)
    requires
        0 <= p < 64 * s.len(),
    ensures
        srank(s, p + 1) == srank(s, p) + if sbit(s, p) { 1int } else { 0int },
{
    lemma_div64(p);
    lemma_div64(p + 1);
    let w = p / 64;
    if p % 64 == 63 {
        assert((p + 1) / 64 == w + 1);
        assert((p + 1) % 64 == 0);
        assert(count_below(s[w], 64) == count_below(s[w], 63) + if bit_of(s[w], 63) { 1nat } else { 0nat });
        if p + 1 == 64 * s.len() {
            assert(w + 1 == s.len());
        }
    } else {
        assert((p + 1) / 64 == w);
        assert((p + 1) % 64 == p % 64 + 1);
    }
}

/// A slice of words as one long bit set, bit `i` of word `j` at position
/// `j * 64 + i`.
pub trait Words {
    /// Total bits.
    spec fn bits_view(&self) -> Seq<u64>;

    /// Number of set bits in the whole slice.
    fn count_ones(&self) -> usize
        requires
            self.bits_view().len() * 64 <= usize::MAX,
    ;

    /// Number of set bits at positions `< i`; larger `i` counts everything.
    fn rank(&self, i: usize) -> usize
        requires
            self.bits_view().len() * 64 <= usize::MAX,
    ;

    /// Position of the `k`-th set bit (from 0), if `k < count_ones`.
    fn select(&self, k: usize) -> Option<usize>
        requires
            self.bits_view().len() * 64 <= usize::MAX,
    ;

    /// Lowest set position `>= i`, if any.
    fn next_set_from(&self, i: usize) -> Option<usize>
        requires
            self.bits_view().len() * 64 <= usize::MAX,
    ;

    /// Lowest position where `k` consecutive set bits start, if any. `k` in
    /// `1..=64`; a run may straddle one word boundary.
    fn find_run(&self, k: u32) -> Option<usize>
        requires
            self.bits_view().len() * 64 <= usize::MAX,
            1 <= k <= 64,
    ;

    /// Positions of every set bit, ascending: the selection vector of a
    /// bitmap.
    fn positions(&self) -> Vec<usize>
        requires
            self.bits_view().len() * 64 <= usize::MAX,
    ;
}

impl Words for [u64] {
    open spec fn bits_view(&self) -> Seq<u64> {
        self@
    }

    fn count_ones(&self) -> (r: usize)
        ensures
            r == words_pop(self@, self@.len() as int),
    {
        let n = self.len();
        let mut total: usize = 0;
        let mut w: usize = 0;
        while w < n
            invariant
                n == self@.len(),
                n * 64 <= usize::MAX,
                w <= n,
                total == words_pop(self@, w as int),
            decreases n - w,
        {
            proof {
                lemma_words_pop_bounds(self@, w + 1);
            }
            total = total + Word::count_ones(self[w]) as usize;
            w = w + 1;
        }
        total
    }

    fn rank(&self, i: usize) -> (r: usize)
        ensures
            r == srank(self@, i as int),
    {
        let n = self.len();
        let full = i / 64;
        let rest = i % 64;
        let mut head: usize = 0;
        let mut w: usize = 0;
        while w < n && w < full
            invariant
                n == self@.len(),
                n * 64 <= usize::MAX,
                w <= n,
                w <= full,
                head == words_pop(self@, w as int),
            decreases n - w,
        {
            proof {
                lemma_words_pop_bounds(self@, w + 1);
            }
            head = head + Word::count_ones(self[w]) as usize;
            w = w + 1;
        }
        let tail: usize = if full < n {
            self[full].rank(rest as u32) as usize
        } else {
            0
        };
        proof {
            lemma_div64(i as int);
            lemma_words_pop_bounds(self@, n as int);
            if full < n {
                crate::model::lemma_count_below_bounds(self@[full as int], rest as int);
                lemma_words_pop_bounds(self@, full as int);
                assert(i < 64 * n);
                if i == 0 {
                    assert(count_below(self@[0], 0) == 0);
                }
            } else {
                assert(w == n);
                if n > 0 || i > 0 {
                    assert(i >= 64 * n);
                }
            }
        }
        head + tail
    }

    fn select(&self, k: usize) -> (r: Option<usize>)
        ensures
            match r {
                None => k >= words_pop(self@, self@.len() as int),
                Some(p) => sbit(self@, p as int) && srank(self@, p as int) == k,
            },
    {
        let n = self.len();
        let mut rem = k;
        let mut w: usize = 0;
        while w < n
            invariant
                n == self@.len(),
                n * 64 <= usize::MAX,
                w <= n,
                rem + words_pop(self@, w as int) == k,
            decreases n - w,
        {
            let word = self[w];
            let c = Word::count_ones(word) as usize;
            if rem < c {
                let inner = Word::select_lowest(word, rem as u32) as usize;
                proof {
                    lemma_words_pop_bounds(self@, n as int);
                    lemma_div64(w * 64 + inner);
                    assert((w * 64 + inner) / 64 == w);
                    assert((w * 64 + inner) % 64 == inner);
                    if w * 64 + inner == 0 {
                        assert(count_below(word, 0) == 0);
                    }
                }
                return Some(w * 64 + inner);
            }
            rem = rem - c;
            w = w + 1;
        }
        None
    }

    fn next_set_from(&self, i: usize) -> (r: Option<usize>)
        ensures
            match r {
                None => forall|p: int| p >= i ==> !#[trigger] sbit(self@, p),
                Some(p) => p >= i && sbit(self@, p as int) && forall|q: int| i <= q < p ==> !#[trigger] sbit(self@, q),
            },
    {
        let n = self.len();
        let wi = i / 64;
        let bit = i % 64;
        proof {
            lemma_div64(i as int);
        }
        if wi >= n {
            proof {
                assert forall|p: int| p >= i implies !#[trigger] sbit(self@, p) by {}
            }
            return None;
        }
        let first = self[wi];
        let masked = first & !<u64 as Word>::low_ones(bit as u32);
        match masked.first_set() {
            Some(p) => {
                proof {
                    crate::model::lemma_tz(masked);
                    assert forall|q: int| i <= q < wi * 64 + p implies !#[trigger] sbit(self@, q) by {
                        lemma_div64(q);
                        assert(q / 64 == wi);
                        assert(!bit_of(masked, q % 64));
                    }
                    lemma_div64(wi * 64 + p);
                    assert((wi * 64 + p) / 64 == wi);
                }
                return Some(wi * 64 + p as usize);
            },
            None => {},
        }
        proof {
            assert forall|q: int| i <= q < (wi + 1) * 64 implies !#[trigger] sbit(self@, q) by {
                lemma_div64(q);
                assert(q / 64 == wi);
                assert(!bit_of(masked, q % 64));
            }
        }
        let mut w: usize = wi + 1;
        while w < n
            invariant
                n == self@.len(),
                n * 64 <= usize::MAX,
                wi < w <= n,
                i < w * 64,
                forall|q: int| i <= q < w * 64 ==> !#[trigger] sbit(self@, q),
            decreases n - w,
        {
            match self[w].first_set() {
                Some(p) => {
                    proof {
                        crate::model::lemma_tz(self@[w as int]);
                        assert forall|q: int| i <= q < w * 64 + p implies !#[trigger] sbit(self@, q) by {
                            if q >= w * 64 {
                                lemma_div64(q);
                                assert(q / 64 == w);
                            }
                        }
                        lemma_div64(w * 64 + p);
                        assert((w * 64 + p) / 64 == w);
                    }
                    return Some(w * 64 + p as usize);
                },
                None => {
                    proof {
                        assert forall|q: int| i <= q < (w + 1) * 64 implies !#[trigger] sbit(self@, q) by {
                            if q >= w * 64 {
                                lemma_div64(q);
                                assert(q / 64 == w);
                                assert(!bit_of(0u64, q % 64));
                            }
                        }
                    }
                },
            }
            w = w + 1;
        }
        proof {
            assert forall|p: int| p >= i implies !#[trigger] sbit(self@, p) by {}
        }
        None
    }

    fn find_run(&self, k: u32) -> (r: Option<usize>)
        ensures
            match r {
                None => forall|p: int| !#[trigger] srun(self@, p, k as int),
                Some(p) => srun(self@, p as int, k as int) && forall|q: int| q < p ==> !#[trigger] srun(self@, q, k as int),
            },
    {
        let n = self.len();
        let mut wi: usize = 0;
        while wi < n
            invariant
                n == self@.len(),
                n * 64 <= usize::MAX,
                1 <= k <= 64,
                wi <= n,
                forall|q: int| q < wi * 64 ==> !#[trigger] srun(self@, q, k as int),
            decreases n - wi,
        {
            let w = self[wi];
            if w != 0 {
                let rs = w.run_starts(k);
                match rs.first_set() {
                    Some(s) => {
                        proof {
                            crate::model::lemma_tz(rs);
                            assert(run_at(w, s as int, k as int)) by {
                                assert(bit_of(rs, s as int));
                            }
                            assert forall|q: int| 0 <= q < s implies !#[trigger] run_at(w, q, k as int) by {
                                assert(!bit_of(rs, q));
                            }
                            lemma_run_inside(self@, wi as int, k as int, s as int);
                        }
                        return Some(wi * 64 + s as usize);
                    },
                    None => {},
                }
                proof {
                    assert forall|t: int| 0 <= t < 64 implies !#[trigger] run_at(self@[wi as int], t, k as int) by {
                        assert(!bit_of(rs, t));
                    }
                    lemma_run_across(self@, wi as int, k as int);
                }
                let suffix = Word::leading_ones(w);
                if suffix != 0 {
                    let prefix = if wi + 1 < n {
                        Word::trailing_ones(self[wi + 1])
                    } else {
                        0
                    };
                    if suffix + prefix >= k {
                        return Some(wi * 64 + (64 - suffix) as usize);
                    }
                }
            } else {
                proof {
                    assert forall|q: int| wi * 64 <= q < wi * 64 + 64 implies !#[trigger] srun(self@, q, k as int) by {
                        if srun(self@, q, k as int) {
                            assert(sbit(self@, q));
                            lemma_div64(q);
                            assert(q / 64 == wi);
                            assert(!bit_of(0u64, q % 64));
                        }
                    }
                }
            }
            wi = wi + 1;
        }
        None
    }

    fn positions(&self) -> (r: Vec<usize>)
        ensures
            r@.len() == words_pop(self@, self@.len() as int),
            forall|j: int| 0 <= j < r@.len() ==> sbit(self@, #[trigger] r@[j] as int) && srank(self@, r@[j] as int) == j,
    {
        let n = self.len();
        let mut out: Vec<usize> = Vec::new();
        let mut w: usize = 0;
        while w < n
            invariant
                n == self@.len(),
                n * 64 <= usize::MAX,
                w <= n,
                out@.len() == words_pop(self@, w as int),
                forall|j: int| 0 <= j < out@.len() ==> sbit(self@, #[trigger] out@[j] as int) && srank(self@, out@[j] as int) == j,
            decreases n - w,
        {
            let mut pos = self[w].positions();
            let ghost start = out@.len();
            while pos.0 != 0
                invariant
                    n == self@.len(),
                    n * 64 <= usize::MAX,
                    w < n,
                    start == words_pop(self@, w as int),
                    forall|q: int| #[trigger] bit_of(pos.0, q) == (bit_of(self@[w as int], q) && count_below(self@[w as int], q) >= out@.len() - start),
                    out@.len() - start <= popcount(self@[w as int]),
                    out@.len() >= start,
                    forall|j: int| 0 <= j < out@.len() ==> sbit(self@, #[trigger] out@[j] as int) && srank(self@, out@[j] as int) == j,
                decreases popcount(self@[w as int]) - (out@.len() - start),
            {
                let ghost old_pos = pos.0;
                let p = match pos.next() {
                    Some(p) => p,
                    None => 0,
                };
                proof {
                    lemma_positions_step(self@, w as int, old_pos, pos.0, p as int, out@.len() - start);
                    lemma_words_pop_bounds(self@, n as int);
                    lemma_div64(w * 64 + p);
                    assert((w * 64 + p) / 64 == w);
                    assert((w * 64 + p) % 64 == p);
                    if w * 64 + p == 0 {
                        assert(count_below(self@[0], 0) == 0);
                    }
                }
                out.push(w * 64 + p as usize);
            }
            proof {
                lemma_positions_done(self@, w as int, pos.0, out@.len() - start);
            }
            w = w + 1;
        }
        out
    }
}

pub proof fn lemma_positions_step(s: Seq<u64>, w: int, old_pos: u64, new_pos: u64, p: int, taken: int)
    requires
        0 <= w < s.len(),
        0 <= taken,
        forall|q: int| #[trigger] bit_of(old_pos, q) == (bit_of(s[w], q) && count_below(s[w], q) >= taken),
        bit_of(old_pos, p),
        forall|j: int| j < p ==> !#[trigger] bit_of(old_pos, j),
        forall|j: int| #[trigger] bit_of(new_pos, j) == (bit_of(old_pos, j) && j != p),
    ensures
        count_below(s[w], p) == taken,
        bit_of(s[w], p),
        0 <= p < 64,
        taken < popcount(s[w]),
        forall|q: int| #[trigger] bit_of(new_pos, q) == (bit_of(s[w], q) && count_below(s[w], q) >= taken + 1),
{
    let x = s[w];
    if count_below(x, p) > taken {
        crate::model::lemma_select_exists(x, p, taken);
        let q = choose|q: int| 0 <= q < p && #[trigger] bit_of(x, q) && count_below(x, q) == taken;
        assert(bit_of(old_pos, q));
    }
    crate::model::lemma_count_below_mono(x, p + 1, 64);
    assert(count_below(x, p + 1) == count_below(x, p) + 1);
    assert forall|q: int| #[trigger] bit_of(new_pos, q) == (bit_of(x, q) && count_below(x, q) >= taken + 1) by {
        if bit_of(x, q) && count_below(x, q) == taken {
            crate::model::lemma_select_unique(x, q, p);
        }
    }
}

pub proof fn lemma_positions_done(s: Seq<u64>, w: int, pos: u64, taken: int)
    requires
        0 <= w < s.len(),
        0 <= taken <= popcount(s[w]),
        forall|q: int| #[trigger] bit_of(pos, q) == (bit_of(s[w], q) && count_below(s[w], q) >= taken),
        pos == 0,
    ensures
        taken == popcount(s[w]),
{
    if taken < popcount(s[w]) {
        crate::model::lemma_select_exists(s[w], 64, taken);
        let q = choose|q: int| 0 <= q < 64 && #[trigger] bit_of(s[w], q) && count_below(s[w], q) == taken;
        assert(bit_of(pos, q));
    }
}

/// A run inside word `wi` found by the word's own run search is the least
/// run of the slice from `wi` on.
proof fn lemma_run_inside(s: Seq<u64>, wi: int, k: int, t: int)
    requires
        0 <= wi < s.len(),
        1 <= k <= 64,
        0 <= t < 64,
        run_at(s[wi], t, k),
        forall|q: int| 0 <= q < t ==> !#[trigger] run_at(s[wi], q, k),
        forall|q: int| q < wi * 64 ==> !#[trigger] srun(s, q, k),
    ensures
        srun(s, wi * 64 + t, k),
        forall|q: int| q < wi * 64 + t ==> !#[trigger] srun(s, q, k),
{
    assert forall|b: int| wi * 64 + t <= b < wi * 64 + t + k implies #[trigger] sbit(s, b) by {
        lemma_div64(b);
        assert(b / 64 == wi);
        assert(bit_of(s[wi], b % 64));
    }
    assert forall|q: int| q < wi * 64 + t implies !#[trigger] srun(s, q, k) by {
        if q >= wi * 64 && srun(s, q, k) {
            let u = q - wi * 64;
            assert forall|c: int| u <= c < u + k implies #[trigger] bit_of(s[wi], c) by {
                assert(sbit(s, wi * 64 + c));
                lemma_div64(wi * 64 + c);
                assert((wi * 64 + c) / 64 == wi);
            }
            assert(run_at(s[wi], u, k));
        }
    }
}

/// When no run lies inside word `wi`, the least run starting in it starts
/// at its top run of ones and crosses into the next word.
proof fn lemma_run_across(s: Seq<u64>, wi: int, k: int)
    requires
        0 <= wi < s.len(),
        1 <= k <= 64,
        forall|t: int| 0 <= t < 64 ==> !#[trigger] run_at(s[wi], t, k),
    ensures
        ({
            let suffix = 63 - crate::model::top_bit(!s[wi]);
            let prefix = if wi + 1 < s.len() { tz(!s[wi + 1]) } else { 0 };
            &&& 0 <= suffix <= 64
            &&& suffix + prefix >= k ==> srun(s, wi * 64 + 64 - suffix, k)
            &&& forall|q: int| wi * 64 <= q < wi * 64 + 64 && (suffix + prefix < k || q < wi * 64 + 64 - suffix) ==> !#[trigger] srun(s, q, k)
        }),
{
    let x = s[wi];
    crate::model::lemma_top_bit(!x);
    let suffix = 63 - crate::model::top_bit(!x);
    let prefix = if wi + 1 < s.len() { tz(!s[wi + 1]) } else { 0 };
    if wi + 1 < s.len() {
        crate::model::lemma_tz(!s[wi + 1]);
    }
    assert forall|c: int| 64 - suffix <= c < 64 implies #[trigger] bit_of(x, c) by {
        assert(!bit_of(!x, c));
    }
    if suffix + prefix >= k {
        assert forall|b: int| wi * 64 + 64 - suffix <= b < wi * 64 + 64 - suffix + k implies #[trigger] sbit(s, b) by {
            lemma_div64(b);
            if b < wi * 64 + 64 {
                assert(b / 64 == wi);
            } else {
                assert(b / 64 == wi + 1);
                assert(b % 64 < prefix);
                assert(!bit_of(!s[wi + 1], b % 64));
            }
        }
    }
    assert forall|q: int| wi * 64 <= q < wi * 64 + 64 && (suffix + prefix < k || q < wi * 64 + 64 - suffix) implies !#[trigger] srun(s, q, k) by {
        if srun(s, q, k) {
            let u = q - wi * 64;
            if u + k <= 64 {
                assert forall|c: int| u <= c < u + k implies #[trigger] bit_of(x, c) by {
                    assert(sbit(s, wi * 64 + c));
                    lemma_div64(wi * 64 + c);
                    assert((wi * 64 + c) / 64 == wi);
                }
                assert(run_at(x, u, k));
            } else {
                // the run crosses the word's top: the whole top of x is set
                if u < 64 - suffix {
                    let c = 63 - suffix;
                    assert(bit_of(!x, c));
                    assert(sbit(s, wi * 64 + c));
                    lemma_div64(wi * 64 + c);
                    assert((wi * 64 + c) / 64 == wi);
                } else {
                    assert(suffix + prefix < k);
                    assert(wi + 1 < s.len());
                    let c = prefix;
                    assert(c < 64);
                    assert(bit_of(!s[wi + 1], c));
                    assert(sbit(s, (wi + 1) * 64 + c));
                    lemma_div64((wi + 1) * 64 + c);
                    assert(((wi + 1) * 64 + c) / 64 == wi + 1);
                }
            }
        }
    }
}

} // verus!

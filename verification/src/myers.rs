//! Bit-parallel edit distance (Myers 1999, Hyyrö's formulation).
//!
//! The dynamic-programming column of Levenshtein distance is encoded as two
//! bit-vectors of vertical deltas (`+1` / `-1`) and advanced one text
//! character per step with a handful of word operations. The carry chain
//! does the work: `((Eq & Pv) + Pv) ^ Pv` propagates matches down the
//! column exactly where the table would. Patterns up to 64 characters in
//! one word; [`distance`] takes patterns up to 512 bytes a cell at a time.
//!
//! Two boundary conditions, one engine: [`distance_in`] charges for every
//! text character (global alignment), [`search`] lets a match start
//! anywhere (semi-global, approximate string matching). The contracts speak
//! of the table itself, [`table`].
use vstd::prelude::*;
use crate::model::{bit_of, carries, group_bits};

verus! {

broadcast use group_bits;

/// The least of three.
pub open spec fn min3(a: int, b: int, c: int) -> int {
    if a <= b && a <= c { a } else if b <= c { b } else { c }
}

/// The edit-distance table of `p` against `t`: `table(p, t, i, j, global)`
/// is the least number of insertions, deletions and substitutions between
/// the first `i` bytes of `p` and the first `j` of `t`, where with
/// `global` unset the text's prefix before a match is free.
pub open spec fn table(p: Seq<u8>, t: Seq<u8>, i: int, j: int, global: bool) -> int
    decreases i + j,
{
    if i <= 0 {
        if global && j > 0 { j } else { 0 }
    } else if j <= 0 {
        i
    } else {
        min3(
            table(p, t, i - 1, j - 1, global) + if p[i - 1] == t[j - 1] { 0int } else { 1int },
            table(p, t, i - 1, j, global) + 1,
            table(p, t, i, j - 1, global) + 1,
        )
    }
}

/// The Levenshtein distance between `p` and `t`.
pub open spec fn levenshtein(p: Seq<u8>, t: Seq<u8>) -> int {
    table(p, t, p.len() as int, t.len() as int, true)
}

/// Neighbouring cells of the table differ by at most one, and the table is
/// between zero and `i + j`.
pub proof fn lemma_table_steps(p: Seq<u8>, t: Seq<u8>, i: int, j: int, global: bool)
    requires
        0 <= i <= p.len(),
        0 <= j <= t.len(),
    ensures
        0 <= table(p, t, i, j, global) <= i + j,
        table(p, t, i, j, global) <= if i >= j { i } else { j },
        i > 0 ==> -1 <= table(p, t, i, j, global) - table(p, t, i - 1, j, global) <= 1,
        j > 0 ==> -1 <= table(p, t, i, j, global) - table(p, t, i, j - 1, global) <= 1,
    decreases i + j,
{
    if i > 0 && j > 0 {
        lemma_table_steps(p, t, i - 1, j - 1, global);
        lemma_table_steps(p, t, i - 1, j, global);
        lemma_table_steps(p, t, i, j - 1, global);
    } else if i > 0 {
        lemma_table_steps(p, t, i - 1, j, global);
    } else if j > 0 {
        lemma_table_steps(p, t, i, j - 1, global);
    }
}

/// Vertical delta of row `i` of column `j`.
pub open spec fn vdelta(p: Seq<u8>, t: Seq<u8>, i: int, j: int, global: bool) -> int {
    table(p, t, i, j, global) - table(p, t, i - 1, j, global)
}

/// Horizontal delta of row `i` into column `j`.
pub open spec fn hdelta(p: Seq<u8>, t: Seq<u8>, i: int, j: int, global: bool) -> int {
    table(p, t, i, j, global) - table(p, t, i, j - 1, global)
}

/// The column of vertical deltas of rows `1..=m` of column `j`, as the two
/// words: bit `i - 1` of `pv` for `+1`, of `mv` for `-1`.
pub open spec fn column_is(pv: u64, mv: u64, p: Seq<u8>, t: Seq<u8>, m: int, j: int, global: bool) -> bool {
    forall|k: int| 0 <= k < m ==> (#[trigger] bit_of(pv, k) <==> vdelta(p, t, k + 1, j, global) == 1)
        && (bit_of(mv, k) <==> vdelta(p, t, k + 1, j, global) == -1)
}

/// Bit `i` of the match word of `c` is set iff byte `i` of the pattern is `c`.
pub open spec fn matches_of(eq: u64, p: Seq<u8>, c: u8) -> bool {
    forall|k: int| 0 <= k < p.len() ==> (#[trigger] bit_of(eq, k) <==> p[k] == c)
}

/// One column step down rows `1..=m`: the carry of the addition into bit
/// `k` is a `-1` coming in from row `k` above.
proof fn lemma_step_rows(
    p: Seq<u8>, t: Seq<u8>, m: int, j: int, global: bool,
    pv: u64, mv: u64, eq: u64, sum: u64, k: int,
)
    requires
        1 <= m <= 64,
        m == p.len(),
        1 <= j <= t.len(),
        column_is(pv, mv, p, t, m, j - 1, global),
        matches_of(eq, p, t[j - 1]),
        sum == ((eq & pv) + pv) as u64,
        0 <= k < m,
    ensures
        bit_of(carries(eq & pv, pv), k) <==> hdelta(p, t, k, j, global) == -1,
        ({
            let xh = (sum ^ pv) | eq;
            &&& (bit_of(mv | !(xh | pv), k) <==> hdelta(p, t, k + 1, j, global) == 1)
            &&& (bit_of(pv & xh, k) <==> hdelta(p, t, k + 1, j, global) == -1)
        }),
    decreases k,
{
    let a = eq & pv;
    lemma_table_steps(p, t, k, j, global);
    lemma_table_steps(p, t, k + 1, j, global);
    lemma_table_steps(p, t, k + 1, j - 1, global);
    lemma_table_steps(p, t, k, j - 1, global);
    if k == 0 {
        crate::model::lemma_carry_at(a, pv, 0);
    } else {
        lemma_step_rows(p, t, m, j, global, pv, mv, eq, sum, k - 1);
        crate::model::lemma_carry_at(a, pv, k - 1);
        assert(bit_of(pv, k - 1) <==> vdelta(p, t, k, j - 1, global) == 1);
        assert(bit_of(eq, k - 1) <==> p[k - 1] == t[j - 1]);
    }
    crate::model::lemma_sum_bit(a, pv, k);
    assert(bit_of(pv, k) <==> vdelta(p, t, k + 1, j - 1, global) == 1);
    assert(bit_of(mv, k) <==> vdelta(p, t, k + 1, j - 1, global) == -1);
    assert(bit_of(eq, k) <==> p[k] == t[j - 1]);
}

/// Bit `k` of the shifted horizontal words speaks of row `k`: the
/// boundary row 0 comes in as bit 0.
#[verifier::spinoff_prover]
proof fn lemma_step_column(
    p: Seq<u8>, t: Seq<u8>, m: int, j: int, global: bool,
    pv: u64, mv: u64, eq: u64,
)
    requires
        1 <= m <= 64,
        m == p.len(),
        1 <= j <= t.len(),
        column_is(pv, mv, p, t, m, j - 1, global),
        matches_of(eq, p, t[j - 1]),
    ensures
        ({
            let xv = eq | mv;
            let xh = ((((eq & pv) + pv) as u64) ^ pv) | eq;
            let ph0 = mv | !(xh | pv);
            let mh0 = pv & xh;
            let ph = if global { (ph0 << 1u64) | 1u64 } else { ph0 << 1u64 };
            let mh = mh0 << 1u64;
            &&& column_is(mh | !(xv | ph), ph & xv, p, t, m, j, global)
            &&& (bit_of(ph0, m - 1) <==> hdelta(p, t, m, j, global) == 1)
            &&& (bit_of(mh0, m - 1) <==> hdelta(p, t, m, j, global) == -1)
        }),
{
    let xv = eq | mv;
    let sum = ((eq & pv) + pv) as u64;
    let xh = (sum ^ pv) | eq;
    let ph0 = mv | !(xh | pv);
    let mh0 = pv & xh;
    let ph = if global { (ph0 << 1u64) | 1u64 } else { ph0 << 1u64 };
    let mh = mh0 << 1u64;
    assert forall|k: int| 0 <= k < m implies
        (#[trigger] bit_of(mh | !(xv | ph), k) <==> vdelta(p, t, k + 1, j, global) == 1)
        && (bit_of(ph & xv, k) <==> vdelta(p, t, k + 1, j, global) == -1) by {
        lemma_table_steps(p, t, k, j, global);
        lemma_table_steps(p, t, k + 1, j, global);
        lemma_table_steps(p, t, k + 1, j - 1, global);
        lemma_table_steps(p, t, k, j - 1, global);
        assert(bit_of(pv, k) <==> vdelta(p, t, k + 1, j - 1, global) == 1);
        assert(bit_of(mv, k) <==> vdelta(p, t, k + 1, j - 1, global) == -1);
        assert(bit_of(eq, k) <==> p[k] == t[j - 1]);
        if k == 0 {
            assert(bit_of(ph, 0) == global);
            assert(!bit_of(mh, 0));
        } else {
            lemma_step_rows(p, t, m, j, global, pv, mv, eq, sum, k - 1);
            assert(bit_of(ph, k) == bit_of(ph0, k - 1));
            assert(bit_of(mh, k) == bit_of(mh0, k - 1));
        }
    }
    lemma_step_rows(p, t, m, j, global, pv, mv, eq, sum, m - 1);
}

/// The match words of a pattern: entry `c` has bit `k` set iff byte `k`
/// of the pattern is `c`.
pub open spec fn peq_ok(table: Seq<u64>, p: Seq<u8>) -> bool {
    &&& table.len() == 256
    &&& forall|c: int| 0 <= c < 256 ==> #[trigger] matches_of(table[c], p, c as u8)
}

/// The match words of `pattern`, at most 64 bytes.
fn peq_fill(pattern: &[u8]) -> (table: Vec<u64>)
    requires
        pattern.len() <= 64,
    ensures
        peq_ok(table@, pattern@),
{
    let mut table: Vec<u64> = Vec::new();
    let mut c: usize = 0;
    while c < 256
        invariant
            c <= 256,
            table.len() == c,
            forall|d: int| 0 <= d < c ==> table@[d] == 0,
        decreases 256 - c,
    {
        table.push(0);
        c += 1;
    }
    let m = pattern.len();
    let mut i: usize = 0;
    while i < m
        invariant
            m == pattern.len() <= 64,
            i <= m,
            table.len() == 256,
            forall|d: int, k: int| 0 <= d < 256 && 0 <= k < 64 ==>
                (#[trigger] bit_of(table@[d], k) <==> (k < i && pattern@[k] == d as u8)),
        decreases m - i,
    {
        let b = pattern[i] as usize;
        let w = table[b] | (1u64 << (i as u64));
        table.set(b, w);
        i += 1;
    }
    assert forall|c: int| 0 <= c < 256 implies #[trigger] matches_of(table@[c], pattern@, c as u8) by {
        assert forall|k: int| 0 <= k < pattern@.len() implies
            (#[trigger] bit_of(table@[c], k) <==> pattern@[k] == c as u8) by {}
    }
    table
}

/// The column state: the vertical `+1` and `-1` deltas, and the bit of
/// the pattern's last row.
#[derive(Clone, Copy)]
struct Column {
    pv: u64,
    mv: u64,
    top: u64,
}

/// The first column: every vertical delta is `+1`.
fn column_new(m: u32) -> (col: Column)
    requires
        1 <= m <= 64,
    ensures
        col.top == 1u64 << ((m - 1) as u64),
        forall|p: Seq<u8>, t: Seq<u8>, global: bool| p.len() == m ==> #[trigger] column_is(col.pv, col.mv, p, t, m as int, 0, global),
{
    let col = Column { pv: 0xffff_ffff_ffff_ffffu64, mv: 0, top: 1u64 << ((m - 1) as u64) };
    assert forall|p: Seq<u8>, t: Seq<u8>, global: bool| p.len() == m implies #[trigger] column_is(col.pv, col.mv, p, t, m as int, 0, global) by {
        assert forall|k: int| 0 <= k < m implies
            (#[trigger] bit_of(col.pv, k) <==> vdelta(p, t, k + 1, 0, global) == 1)
            && (bit_of(col.mv, k) <==> vdelta(p, t, k + 1, 0, global) == -1) by {}
    }
    col
}

/// Advances the column over one text byte whose match word is `eq`, and
/// returns the change of the bottom cell. `charge_start` is the boundary
/// row: the text's prefix costs its length, or nothing.
fn step(col: &mut Column, eq: u64, charge_start: bool, Ghost(p): Ghost<Seq<u8>>, Ghost(t): Ghost<Seq<u8>>, Ghost(j): Ghost<int>) -> (delta: i32)
    requires
        1 <= p.len() <= 64,
        1 <= j <= t.len(),
        old(col).top == 1u64 << ((p.len() - 1) as u64),
        column_is(old(col).pv, old(col).mv, p, t, p.len() as int, j - 1, charge_start),
        matches_of(eq, p, t[j - 1]),
    ensures
        final(col).top == old(col).top,
        column_is(final(col).pv, final(col).mv, p, t, p.len() as int, j, charge_start),
        delta == hdelta(p, t, p.len() as int, j, charge_start),
{
    let ghost m = p.len() as int;
    proof {
        lemma_step_column(p, t, m, j, charge_start, col.pv, col.mv, eq);
    }
    let xv = eq | col.mv;
    let sum = (eq & col.pv).wrapping_add(col.pv);
    proof {
        crate::model::lemma_wrapping_add_is_truncation(eq & col.pv, col.pv, sum);
    }
    let xh = (sum ^ col.pv) | eq;
    let ph = col.mv | !(xh | col.pv);
    let mh = col.pv & xh;
    assert(bit_of(ph & col.top, m - 1) == bit_of(ph, m - 1));
    assert(bit_of(mh & col.top, m - 1) == bit_of(mh, m - 1));
    let delta: i32 = if ph & col.top != 0 {
        1
    } else if mh & col.top != 0 {
        -1
    } else {
        0
    };
    proof {
        lemma_table_steps(p, t, m, j, charge_start);
        if !bit_of(ph, m - 1) {
            assert forall|k: int| 0 <= k < 64 implies #[trigger] bit_of(ph & col.top, k) == bit_of(0u64, k) by {}
            crate::model::lemma_bits_eq(ph & col.top, 0);
        }
        if !bit_of(mh, m - 1) {
            assert forall|k: int| 0 <= k < 64 implies #[trigger] bit_of(mh & col.top, k) == bit_of(0u64, k) by {}
            crate::model::lemma_bits_eq(mh & col.top, 0);
        }
    }
    let ph = if charge_start { (ph << 1u64) | 1u64 } else { ph << 1u64 };
    let mh = mh << 1u64;
    col.pv = mh | !(xv | ph);
    col.mv = ph & xv;
    delta
}

/// The least bottom cell of the semi-global table over columns `0..=n`:
/// the pattern's best match ending anywhere in the first `n` bytes.
pub open spec fn best_upto(p: Seq<u8>, t: Seq<u8>, n: int) -> int
    decreases n,
{
    if n <= 0 {
        table(p, t, p.len() as int, 0, false)
    } else {
        let b = best_upto(p, t, n - 1);
        let c = table(p, t, p.len() as int, n, false);
        if c < b { c } else { b }
    }
}

/// The bottom cell after `j` bytes, from the one before and the step's delta.
proof fn lemma_score_step(p: Seq<u8>, t: Seq<u8>, j: int, global: bool)
    requires
        1 <= p.len(),
        1 <= j <= t.len(),
    ensures
        0 <= table(p, t, p.len() as int, j, global) <= if p.len() >= j { p.len() as int } else { j },
        table(p, t, p.len() as int, j, global) == table(p, t, p.len() as int, j - 1, global)
            + hdelta(p, t, p.len() as int, j, global),
        -1 <= hdelta(p, t, p.len() as int, j, global) <= 1,
{
    lemma_table_steps(p, t, p.len() as int, j, global);
}

/// Levenshtein distance between `pattern` and `text`, or `None` when the
/// pattern is longer than 64 bytes or the distance does not fit a `u32`.
pub fn distance_in(pattern: &[u8], text: &[u8]) -> (r: Option<u32>)
    ensures
        pattern@.len() > 64 ==> r is None,
        pattern@.len() <= 64 ==> r == if levenshtein(pattern@, text@) <= u32::MAX {
            Some(levenshtein(pattern@, text@) as u32)
        } else {
            None::<u32>
        },
{
    if pattern.len() > 64 {
        return None;
    }
    let ghost p = pattern@;
    let ghost t = text@;
    if pattern.len() == 0 {
        proof {
            lemma_table_steps(p, t, 0, t.len() as int, true);
        }
        return if text.len() as u64 <= 0xffff_ffffu64 { Some(text.len() as u32) } else { None };
    }
    let peq = peq_fill(pattern);
    let m = pattern.len() as u32;
    let mut col = column_new(m);
    assert(column_is(col.pv, col.mv, p, t, m as int, 0, true));
    let mut score: u64 = m as u64;
    let n = text.len();
    let mut j: usize = 0;
    while j < n
        invariant
            p == pattern@,
            t == text@,
            n == t.len(),
            1 <= m <= 64,
            m == p.len(),
            j <= n,
            peq_ok(peq@, p),
            col.top == 1u64 << ((m - 1) as u64),
            column_is(col.pv, col.mv, p, t, m as int, j as int, true),
            score == table(p, t, m as int, j as int, true),
        decreases n - j,
    {
        let c = text[j];
        assert(matches_of(peq@[c as int], p, (c as int) as u8));
        let delta = step(&mut col, peq[c as usize], true, Ghost(p), Ghost(t), Ghost(j + 1));
        proof {
            lemma_score_step(p, t, (j + 1) as int, true);
        }
        if delta == 1 {
            score = score + 1;
        } else if delta == -1 {
            score = score - 1;
        }
        j += 1;
    }
    if score <= 0xffff_ffffu64 {
        Some(score as u32)
    } else {
        None
    }
}

/// Smallest edit distance between `pattern` and any substring of `text`
/// (the empty one included, so at most the pattern's length), or `None`
/// when the pattern is longer than 64 bytes.
pub fn substring_distance(pattern: &[u8], text: &[u8]) -> (r: Option<u32>)
    ensures
        pattern@.len() > 64 ==> r is None,
        pattern@.len() <= 64 ==> r == Some(best_upto(pattern@, text@, text@.len() as int) as u32),
        pattern@.len() <= 64 ==> 0 <= best_upto(pattern@, text@, text@.len() as int) <= pattern@.len(),
{
    if pattern.len() > 64 {
        return None;
    }
    let ghost p = pattern@;
    let ghost t = text@;
    if pattern.len() == 0 {
        proof {
            lemma_best_empty(p, t, t.len() as int);
        }
        return Some(0);
    }
    let peq = peq_fill(pattern);
    let m = pattern.len() as u32;
    let mut col = column_new(m);
    assert(column_is(col.pv, col.mv, p, t, m as int, 0, false));
    let mut score: u64 = m as u64;
    let mut best: u64 = m as u64;
    let n = text.len();
    let mut j: usize = 0;
    while j < n
        invariant
            p == pattern@,
            t == text@,
            n == t.len(),
            1 <= m <= 64,
            m == p.len(),
            j <= n,
            peq_ok(peq@, p),
            col.top == 1u64 << ((m - 1) as u64),
            column_is(col.pv, col.mv, p, t, m as int, j as int, false),
            score == table(p, t, m as int, j as int, false),
            best == best_upto(p, t, j as int),
            0 <= best <= m,
        decreases n - j,
    {
        let c = text[j];
        assert(matches_of(peq@[c as int], p, (c as int) as u8));
        let delta = step(&mut col, peq[c as usize], false, Ghost(p), Ghost(t), Ghost(j + 1));
        proof {
            lemma_score_step(p, t, (j + 1) as int, false);
        }
        if delta == 1 {
            score = score + 1;
        } else if delta == -1 {
            score = score - 1;
        }
        if score < best {
            best = score;
        }
        j += 1;
    }
    Some(best as u32)
}

/// With an empty pattern every cell of the semi-global table is zero.
proof fn lemma_best_empty(p: Seq<u8>, t: Seq<u8>, n: int)
    requires
        p.len() == 0,
    ensures
        best_upto(p, t, n) == 0,
    decreases n,
{
    if n > 0 {
        lemma_best_empty(p, t, n - 1);
    }
}

/// Some substring of the text ending at `e` (exclusive, `e >= 1`) is
/// within `max` edits of the pattern: the semi-global table's bottom cell.
pub open spec fn ends_within(p: Seq<u8>, t: Seq<u8>, max: int, e: int) -> bool {
    0 <= e <= t.len() && table(p, t, p.len() as int, e, false) <= max
}

/// Approximate occurrences of a pattern in a text, one end at a time;
/// made by [`search`].
pub struct Search<'t> {
    pattern: &'t [u8],
    peq: Vec<u64>,
    at: Cursor,
    started: bool,
    text: &'t [u8],
    max_dist: u32,
}

/// Where a walk over the text stands: the column after `pos` bytes, and
/// its bottom cell.
#[derive(Clone, Copy)]
struct Cursor {
    col: Column,
    score: u64,
    pos: usize,
}

impl<'t> Search<'t> {
    /// The pattern.
    pub closed spec fn pattern_view(&self) -> Seq<u8> {
        self.pattern@
    }

    /// The text.
    pub closed spec fn text_view(&self) -> Seq<u8> {
        self.text@
    }

    /// The first end not yet examined: 0 before the first call, one past
    /// the bytes read after it.
    pub closed spec fn cursor_view(&self) -> int {
        if self.started { self.at.pos + 1 } else { 0 }
    }

    /// The most edits an occurrence may have.
    pub closed spec fn max_view(&self) -> int {
        self.max_dist as int
    }

    #[verifier::type_invariant]
    closed spec fn inv(&self) -> bool {
        let p = self.pattern@;
        let t = self.text@;
        let m = p.len();
        &&& 1 <= m <= 64
        &&& self.at.pos <= t.len()
        &&& (!self.started ==> self.at.pos == 0)
        &&& peq_ok(self.peq@, p)
        &&& self.at.col.top == 1u64 << ((m - 1) as u64)
        &&& column_is(self.at.col.pv, self.at.col.mv, p, t, m as int, self.at.pos as int, false)
        &&& self.at.score == table(p, t, m as int, self.at.pos as int, false)
    }

    /// The next end at which the pattern occurs within the allowed edits,
    /// with the least edits of an occurrence ending there; `None` when the
    /// text is used up. End 0 is the empty match, `m` edits away.
    pub fn next(&mut self) -> (r: Option<(usize, u32)>)
        ensures
            final(self).pattern_view() == old(self).pattern_view(),
            final(self).text_view() == old(self).text_view(),
            final(self).max_view() == old(self).max_view(),
            old(self).cursor_view() <= final(self).cursor_view(),
            forall|j: int| old(self).cursor_view() <= j < final(self).cursor_view() - 1 ==>
                !#[trigger] ends_within(old(self).pattern_view(), old(self).text_view(), old(self).max_view(), j),
            match r {
                Some((e, d)) => {
                    &&& e == final(self).cursor_view() - 1
                    &&& old(self).cursor_view() <= e
                    &&& ends_within(old(self).pattern_view(), old(self).text_view(), old(self).max_view(), e as int)
                    &&& d == table(old(self).pattern_view(), old(self).text_view(), old(self).pattern_view().len() as int, e as int, false)
                },
                None => final(self).cursor_view() == old(self).text_view().len() + 1
                    && forall|j: int| old(self).cursor_view() <= j ==>
                        !#[trigger] ends_within(old(self).pattern_view(), old(self).text_view(), old(self).max_view(), j),
            },
    {
        proof {
            use_type_invariant(&*self);
        }
        if !self.started {
            self.started = true;
            if self.at.score <= self.max_dist as u64 {
                return Some((0, self.at.score as u32));
            }
        }
        let ghost p = self.pattern@;
        let ghost t = self.text@;
        let ghost start = self.at.pos as int;
        let mut col = self.at.col;
        let mut score = self.at.score;
        let mut pos = self.at.pos;
        let n = self.text.len();
        let m = self.pattern.len();
        let mut found = false;
        while pos < n
            invariant_except_break
                !found,
            invariant
                p == self.pattern@,
                t == self.text@,
                n == t.len(),
                1 <= m <= 64,
                m == p.len(),
                start <= pos <= n,
                peq_ok(self.peq@, p),
                col.top == 1u64 << ((m - 1) as u64),
                column_is(col.pv, col.mv, p, t, m as int, pos as int, false),
                score == table(p, t, m as int, pos as int, false),
                forall|j: int| start < j <= pos && !(found && j == pos) ==>
                    !#[trigger] ends_within(p, t, self.max_dist as int, j),
            ensures
                found ==> start < pos && ends_within(p, t, self.max_dist as int, pos as int),
                !found ==> pos == n,
            decreases n - pos,
        {
            let c = self.text[pos];
            assert(matches_of(self.peq@[c as int], p, (c as int) as u8));
            let delta = step(&mut col, self.peq[c as usize], false, Ghost(p), Ghost(t), Ghost(pos + 1));
            proof {
                lemma_score_step(p, t, (pos + 1) as int, false);
            }
            if delta == 1 {
                score = score + 1;
            } else if delta == -1 {
                score = score - 1;
            }
            pos += 1;
            if score <= self.max_dist as u64 {
                found = true;
                break;
            }
        }
        self.at = Cursor { col, score, pos };
        assert(forall|j: int| j > n ==> !#[trigger] ends_within(p, t, self.max_dist as int, j));
        if found {
            Some((pos, score as u32))
        } else {
            None
        }
    }
}

/// Approximate occurrences of `pattern` in `text`: every end position
/// (exclusive) at which some substring ending there is within `max_dist`
/// edits of the pattern, with that distance. The match may start anywhere.
/// `None` when the pattern is empty or longer than 64 bytes.
pub fn search<'t>(pattern: &'t [u8], text: &'t [u8], max_dist: u32) -> (r: Option<Search<'t>>)
    ensures
        (pattern@.len() == 0 || pattern@.len() > 64) <==> r is None,
        r matches Some(s) ==> s.pattern_view() == pattern@ && s.text_view() == text@
            && s.cursor_view() == 0 && s.max_view() == max_dist,
{
    if pattern.len() == 0 || pattern.len() > 64 {
        return None;
    }
    let peq = peq_fill(pattern);
    let m = pattern.len() as u32;
    let col = column_new(m);
    assert(column_is(col.pv, col.mv, pattern@, text@, m as int, 0, false));
    Some(Search { pattern, peq, at: Cursor { col, score: m as u64, pos: 0 }, started: false, text, max_dist })
}

/// `e` is the end of `a..=b` with the least distance, the first on a tie.
pub open spec fn first_min(p: Seq<u8>, t: Seq<u8>, a: int, b: int, e: int) -> bool {
    let m = p.len() as int;
    &&& a <= e <= b
    &&& forall|j: int| a <= j <= b ==> table(p, t, m, e, false) <= #[trigger] table(p, t, m, j, false)
    &&& forall|j: int| a <= j < e ==> table(p, t, m, e, false) < #[trigger] table(p, t, m, j, false)
}

/// The walk back from `end`: the reversed pattern against the text read
/// backwards from `end`, globally, after `len` bytes.
pub open spec fn back_score(p: Seq<u8>, t: Seq<u8>, end: int, len: int) -> int {
    table(p.reverse(), t.subrange(0, end).reverse(), p.len() as int, len, true)
}

/// How far `len` is from the pattern's length.
pub open spec fn off_length(p: Seq<u8>, len: int) -> int {
    if len >= p.len() { len - p.len() } else { p.len() - len }
}

/// `x` is no worse a length for the walk back than `y`: a lower score, then
/// nearer the pattern's length, then shorter.
pub open spec fn back_le(p: Seq<u8>, t: Seq<u8>, end: int, x: int, y: int) -> bool {
    ||| back_score(p, t, end, x) < back_score(p, t, end, y)
    ||| back_score(p, t, end, x) == back_score(p, t, end, y) && off_length(p, x) < off_length(p, y)
    ||| back_score(p, t, end, x) == back_score(p, t, end, y) && off_length(p, x) == off_length(p, y) && x <= y
}

/// How far back from `end` the walk looks for an occurrence of `distance`
/// edits: an alignment of that many edits spans at most `m + distance`
/// bytes.
pub open spec fn back_lo(m: int, end: int, distance: int) -> int {
    if end >= m + distance { end - (m + distance) } else { 0 }
}

/// `len` is the best length for the walk back from `end`.
pub open spec fn back_best(p: Seq<u8>, t: Seq<u8>, end: int, distance: int, len: int) -> bool {
    let k = end - back_lo(p.len() as int, end, distance);
    &&& 0 <= len <= k
    &&& forall|x: int| 0 <= x <= k ==> #[trigger] back_le(p, t, end, len, x)
}

/// One approximate occurrence: `text[start..end]` is `distance` edits
/// from the pattern.
#[derive(Clone, Copy, PartialEq, Eq, Structural, Hash, Debug)]
pub struct Occurrence {
    start: usize,
    end: usize,
    distance: u32,
}

impl Occurrence {
    /// Where the occurrence starts.
    pub closed spec fn start_view(&self) -> int {
        self.start as int
    }

    /// Where it ends, exclusive.
    pub closed spec fn end_view(&self) -> int {
        self.end as int
    }

    /// Its distance from the pattern.
    pub closed spec fn distance_view(&self) -> int {
        self.distance as int
    }

    /// Where the occurrence starts in the text.
    pub fn start(&self) -> (r: usize)
        ensures
            r == self.start_view(),
    {
        self.start
    }

    /// Where it ends, exclusive.
    pub fn end(&self) -> (r: usize)
        ensures
            r == self.end_view(),
    {
        self.end
    }

    /// Edits between `text[start..end]` and the pattern.
    pub fn distance(&self) -> (r: u32)
        ensures
            r == self.distance_view(),
    {
        self.distance
    }

    /// `start..end`, to index the text with.
    pub fn range(&self) -> (r: core::ops::Range<usize>)
        ensures
            r.start == self.start_view(),
            r.end == self.end_view(),
    {
        self.start..self.end
    }
}

/// The occurrence with its best end at `end`: walks back from `end` with
/// the reversed pattern and takes the best length.
fn finish(text: &[u8], rev: &Vec<u64>, m: usize, end: usize, distance: u32, Ghost(p): Ghost<Seq<u8>>) -> (o: Occurrence)
    requires
        1 <= m <= 64,
        m == p.len(),
        peq_ok(rev@, p.reverse()),
        end <= text.len(),
        distance == table(p, text@, m as int, end as int, false),
    ensures
        o.end == end,
        o.distance == distance,
        o.start <= end,
        back_best(p, text@, end as int, distance as int, end - o.start),
        levenshtein(p, text@.subrange(o.start as int, end as int)) == distance,
{
    let ghost t = text@;
    let ghost rp = p.reverse();
    let ghost rt = t.subrange(0, end as int).reverse();
    let span: usize = if distance as usize <= usize::MAX - m { m + distance as usize } else { usize::MAX };
    let lo: usize = if end >= span { end - span } else { 0 };
    assert(lo == back_lo(m as int, end as int, distance as int)) by {
        if distance as usize > usize::MAX - m {
            assert(end < m + distance);
        }
    }
    let k = end - lo;
    let mut col = column_new(m as u32);
    assert(rp.len() == m);
    assert(column_is(col.pv, col.mv, rp, rt, m as int, 0, true));
    let mut score: u64 = m as u64;
    let mut best: u64 = m as u64;
    let mut len: usize = 0;
    let mut j: usize = 0;
    while j < k
        invariant
            t == text@,
            rp == p.reverse(),
            rt == t.subrange(0, end as int).reverse(),
            1 <= m <= 64,
            m == p.len(),
            m == rp.len(),
            end <= t.len(),
            k == end - lo,
            lo == back_lo(m as int, end as int, distance as int),
            j <= k,
            peq_ok(rev@, rp),
            col.top == 1u64 << ((m - 1) as u64),
            column_is(col.pv, col.mv, rp, rt, m as int, j as int, true),
            score == table(rp, rt, m as int, j as int, true),
            score == back_score(p, t, end as int, j as int),
            0 <= len <= j,
            best == back_score(p, t, end as int, len as int),
            forall|x: int| 0 <= x <= j ==> #[trigger] back_le(p, t, end as int, len as int, x),
        decreases k - j,
    {
        let c = text[end - 1 - j];
        assert(rt.len() == end);
        assert(rt[j as int] == c);
        assert(matches_of(rev@[c as int], rp, (c as int) as u8));
        let delta = step(&mut col, rev[c as usize], true, Ghost(rp), Ghost(rt), Ghost(j + 1));
        proof {
            lemma_score_step(rp, rt, (j + 1) as int, true);
        }
        if delta == 1 {
            score = score + 1;
        } else if delta == -1 {
            score = score - 1;
        }
        let ghost old_len = len as int;
        j += 1;
        let off_j: usize = if j >= m { j - m } else { m - j };
        let off_len: usize = if len >= m { len - m } else { m - len };
        if score < best || (score == best && off_j < off_len) {
            best = score;
            len = j;
        }
        assert forall|x: int| 0 <= x <= j implies #[trigger] back_le(p, t, end as int, len as int, x) by {
            if x < j {
                assert(back_le(p, t, end as int, old_len, x));
            }
        }
    }
    proof {
        lemma_walk_back_agrees(p, t, end as int, distance as int, len as int);
    }
    Occurrence { start: end - len, end, distance }
}

/// The ends `a..=b` form one run among the ends from `from` on: each is an
/// end, the one after `b` is not, and the one before `a` is not or lies
/// before `from`.
pub open spec fn is_run(p: Seq<u8>, t: Seq<u8>, max: int, from: int, a: int, b: int) -> bool {
    &&& from <= a
    &&& 0 <= a <= b <= t.len()
    &&& forall|j: int| a <= j <= b ==> #[trigger] ends_within(p, t, max, j)
    &&& (a == from || !ends_within(p, t, max, a - 1))
    &&& !ends_within(p, t, max, b + 1)
}

/// `o` is the occurrence of the run `a..=b`, the first run of ends from
/// `pending` on, after which the ends from `next` on are left: the run's
/// best end, its distance, and the best start found walking back; no other
/// end lies between `pending` and `next`.
pub open spec fn reports(
    p: Seq<u8>, t: Seq<u8>, max: int, from: int, pending: int, next: int, a: int, b: int, o: Occurrence,
) -> bool {
    &&& is_run(p, t, max, from, a, b)
    &&& pending <= a
    &&& b < next
    &&& first_min(p, t, a, b, o.end_view())
    &&& o.distance_view() == table(p, t, p.len() as int, o.end_view(), false)
    &&& back_best(p, t, o.end_view(), o.distance_view(), o.end_view() - o.start_view())
    &&& levenshtein(p, t.subrange(o.start_view(), o.end_view())) == o.distance_view()
    &&& forall|j: int| pending <= j < next && !(a <= j <= b) ==> !#[trigger] ends_within(p, t, max, j)
}

/// The occurrences behind the ends of a [`Search`]: one per run of
/// adjacent ends, at its best end, with where it starts; made by
/// [`Search::occurrences`].
pub struct Occurrences<'t> {
    search: Search<'t>,
    reversed: Vec<u64>,
    best: Option<(usize, u32)>,
    run_end: usize,
    run_start: Ghost<int>,
    from: Ghost<int>,
}

impl<'t> Search<'t> {
    /// The occurrences behind the ends still to come: one per run of
    /// adjacent ends, at its least distance (the first on a tie), with the
    /// start found by walking back from that end with the pattern reversed.
    pub fn occurrences(self) -> (r: Occurrences<'t>)
        ensures
            r.wf(),
            r.pattern_view() == self.pattern_view(),
            r.text_view() == self.text_view(),
            r.max_view() == self.max_view(),
            r.from_view() == self.cursor_view(),
            r.pending() == self.cursor_view(),
    {
        proof {
            use_type_invariant(&self);
        }
        let n = self.pattern.len();
        let mut rev: Vec<u8> = Vec::new();
        let mut i: usize = 0;
        while i < n
            invariant
                n == self.pattern@.len(),
                i <= n,
                rev.len() == i,
                forall|k: int| 0 <= k < i ==> rev@[k] == self.pattern@[n - 1 - k],
            decreases n - i,
        {
            rev.push(self.pattern[n - 1 - i]);
            i += 1;
        }
        assert(rev@ =~= self.pattern@.reverse());
        let reversed = peq_fill(rev.as_slice());
        let ghost c = self.cursor_view();
        Occurrences { search: self, reversed, best: None, run_end: 0, run_start: Ghost(0), from: Ghost(c) }
    }
}

impl<'t> Occurrences<'t> {
    /// The pattern.
    pub closed spec fn pattern_view(&self) -> Seq<u8> {
        self.search.pattern_view()
    }

    /// The text.
    pub closed spec fn text_view(&self) -> Seq<u8> {
        self.search.text_view()
    }

    /// The most edits an occurrence may have.
    pub closed spec fn max_view(&self) -> int {
        self.search.max_view()
    }

    /// The first end these occurrences consider.
    pub closed spec fn from_view(&self) -> int {
        self.from@
    }

    /// The first end not yet behind an occurrence handed out.
    pub closed spec fn pending(&self) -> int {
        if self.best is Some {
            self.run_start@
        } else {
            self.search.cursor_view()
        }
    }

    /// The run under way is a run so far, and its best end is kept.
    pub closed spec fn wf(&self) -> bool {
        let p = self.pattern_view();
        let t = self.text_view();
        let max = self.max_view();
        let c = self.search.cursor_view();
        &&& 1 <= p.len() <= 64
        &&& 0 <= c <= t.len() + 1
        &&& 0 <= self.from@ <= c
        &&& peq_ok(self.reversed@, p.reverse())
        &&& match self.best {
            Some((e, d)) => {
                &&& self.from@ <= self.run_start@ <= e <= self.run_end
                &&& 0 <= self.run_start@
                &&& self.run_end == c - 1
                &&& forall|j: int| self.run_start@ <= j <= self.run_end ==> #[trigger] ends_within(p, t, max, j)
                &&& (self.run_start@ == self.from@ || !ends_within(p, t, max, self.run_start@ - 1))
                &&& first_min(p, t, self.run_start@, self.run_end as int, e as int)
                &&& d == table(p, t, p.len() as int, e as int, false)
            },
            None => c == self.from@ || !ends_within(p, t, max, c - 1) || c == t.len() + 1,
        }
    }

    /// The next occurrence: the first run of ends not yet handed out, at
    /// its best end, with its start; `None` when no end is left.
    pub fn next(&mut self) -> (r: Option<Occurrence>)
        requires
            old(self).wf(),
        ensures
            final(self).wf(),
            final(self).pattern_view() == old(self).pattern_view(),
            final(self).text_view() == old(self).text_view(),
            final(self).max_view() == old(self).max_view(),
            final(self).from_view() == old(self).from_view(),
            r is Some ==> exists|a: int, b: int| #[trigger] reports(old(self).pattern_view(), old(self).text_view(),
                old(self).max_view(), old(self).from_view(), old(self).pending(), final(self).pending(), a, b, r->0),
            r is None ==> forall|j: int| old(self).pending() <= j ==>
                !#[trigger] ends_within(old(self).pattern_view(), old(self).text_view(), old(self).max_view(), j),
    {
        let ghost p = self.pattern_view();
        let ghost t = self.text_view();
        let ghost max = self.max_view();
        let ghost from = self.from@;
        let ghost start_pending = self.pending();
        let m = self.search.pattern.len();
        let mut result: Option<Occurrence> = None;
        let ghost mut ga: int = 0;
        let ghost mut gb: int = 0;
        loop
            invariant_except_break
                result is None,
                forall|j: int| start_pending <= j < self.pending() ==> !#[trigger] ends_within(p, t, max, j),
            invariant
                self.wf(),
                p == self.pattern_view(),
                t == self.text_view(),
                max == self.max_view(),
                from == self.from@,
                m == p.len(),
                start_pending <= self.pending(),
            ensures
                self.wf(),
                p == self.pattern_view(),
                t == self.text_view(),
                max == self.max_view(),
                from == self.from@,
                result is Some ==> reports(p, t, max, from, start_pending, self.pending(), ga, gb, result->0),
                result is None ==> forall|j: int| start_pending <= j ==> !#[trigger] ends_within(p, t, max, j),
            decreases t.len() + 1 - self.search.cursor_view(),
        {
            let ghost old_cursor = self.search.cursor_view();
            let item = self.search.next();
            match item {
                Some((end, d)) => {
                    let extend = match self.best {
                        Some(_) => end >= 1 && end - 1 == self.run_end,
                        None => false,
                    };
                    if extend {
                        let (be, bd) = self.best.unwrap();
                        if d < bd {
                            self.best = Some((end, d));
                        }
                        self.run_end = end;
                    } else {
                        let done = self.best;
                        let ghost a = self.run_start@;
                        let ghost b = self.run_end as int;
                        self.best = Some((end, d));
                        self.run_end = end;
                        self.run_start = Ghost(end as int);
                        if let Some((de, dd)) = done {
                            let o = finish(self.search.text, &self.reversed, m, de, dd, Ghost(p));
                            assert(is_run(p, t, max, from, a, b));
                            assert forall|j: int| start_pending <= j < self.pending() && !(a <= j <= b)
                                implies !#[trigger] ends_within(p, t, max, j) by {
                                if j > b {
                                    assert(old_cursor <= j < self.search.cursor_view() - 1);
                                }
                            }
                            proof {
                                ga = a;
                                gb = b;
                            }
                            result = Some(o);
                            break;
                        }
                    }
                },
                None => {
                    let done = self.best;
                    let ghost a = self.run_start@;
                    let ghost b = self.run_end as int;
                    self.best = None;
                    if let Some((de, dd)) = done {
                        let o = finish(self.search.text, &self.reversed, m, de, dd, Ghost(p));
                        assert(is_run(p, t, max, from, a, b));
                        proof {
                            ga = a;
                            gb = b;
                        }
                        result = Some(o);
                    }
                    break;
                },
            }
        }
        assert(start_pending == old(self).pending());
        assert(p == old(self).pattern_view() && t == old(self).text_view() && max == old(self).max_view() && from == old(self).from_view());
        result
    }
}

/// Levenshtein distance column by column, one cell per pattern byte: the
/// carrier for patterns wider than one word.
fn distance_by_columns(pattern: &[u8], text: &[u8]) -> (r: Option<u32>)
    requires
        pattern.len() <= 512,
    ensures
        r == if levenshtein(pattern@, text@) <= u32::MAX {
            Some(levenshtein(pattern@, text@) as u32)
        } else {
            None::<u32>
        },
{
    let ghost p = pattern@;
    let ghost t = text@;
    let m = pattern.len();
    let n = text.len();
    let mut col: Vec<u64> = Vec::new();
    let mut i: usize = 0;
    while i <= m
        invariant
            m == p.len(),
            m <= 512,
            i <= m + 1,
            col.len() == i,
            forall|k: int| 0 <= k < i ==> col@[k] == table(p, t, k, 0, true),
        decreases m + 1 - i,
    {
        col.push(i as u64);
        i += 1;
    }
    let mut j: usize = 0;
    while j < n
        invariant
            p == pattern@,
            t == text@,
            m == p.len(),
            m <= 512,
            n == t.len(),
            j <= n,
            col.len() == m + 1,
            forall|k: int| 0 <= k <= m ==> col@[k] == table(p, t, k, j as int, true),
        decreases n - j,
    {
        let ghost prev = col@;
        let mut diag: u64 = col[0];
        col.set(0, (j + 1) as u64);
        let mut k: usize = 1;
        while k <= m
            invariant
                p == pattern@,
                t == text@,
                m == p.len(),
                m <= 512,
                n == t.len(),
                j < n,
                1 <= k <= m + 1,
                col.len() == m + 1,
                prev.len() == m + 1,
                diag == prev[k - 1],
                forall|x: int| 0 <= x <= m ==> prev[x] == table(p, t, x, j as int, true),
                forall|x: int| 0 <= x < k ==> col@[x] == table(p, t, x, j + 1, true),
                forall|x: int| k <= x <= m ==> #[trigger] col@[x] == prev[x],
            decreases m + 1 - k,
        {
            assert(prev[k as int] == table(p, t, k as int, j as int, true));
            assert(col@[k as int] == table(p, t, k as int, j as int, true));
            assert(col@[k - 1] == table(p, t, k - 1, (j + 1) as int, true));
            proof {
                lemma_table_steps(p, t, k as int, j as int, true);
                lemma_table_steps(p, t, (k - 1) as int, j as int, true);
                lemma_table_steps(p, t, (k - 1) as int, (j + 1) as int, true);
            }
            let sub: u64 = if pattern[k - 1] == text[j] { diag } else { diag + 1 };
            let del: u64 = col[k] + 1;
            let near: u64 = if sub <= del { sub } else { del };
            let v = if col[k - 1] < near { col[k - 1] + 1 } else { near };
            assert(v == table(p, t, k as int, (j + 1) as int, true));
            diag = col[k];
            col.set(k, v);
            k += 1;
        }
        j += 1;
    }
    let d = col[m];
    if d <= 0xffff_ffffu64 {
        Some(d as u32)
    } else {
        None
    }
}

/// Levenshtein distance with the carrier chosen by the pattern's length:
/// one word up to 64 bytes, the column of cells up to 512, `None` beyond.
pub fn distance(pattern: &[u8], text: &[u8]) -> (r: Option<u32>)
    ensures
        pattern@.len() > 512 ==> r is None,
        pattern@.len() <= 512 ==> r == if levenshtein(pattern@, text@) <= u32::MAX {
            Some(levenshtein(pattern@, text@) as u32)
        } else {
            None::<u32>
        },
{
    if pattern.len() <= 64 {
        distance_in(pattern, text)
    } else if pattern.len() <= 512 {
        distance_by_columns(pattern, text)
    } else {
        None
    }
}

/// The global table of the pattern's first `i` bytes against the text's
/// bytes `s..j`.
pub open spec fn window(p: Seq<u8>, t: Seq<u8>, s: int, i: int, j: int) -> int
    decreases i + j - s,
{
    if i <= 0 {
        if j > s { j - s } else { 0 }
    } else if j <= s {
        i
    } else {
        min3(
            window(p, t, s, i - 1, j - 1) + if p[i - 1] == t[j - 1] { 0int } else { 1int },
            window(p, t, s, i - 1, j) + 1,
            window(p, t, s, i, j - 1) + 1,
        )
    }
}

/// The window table is the global table of the text's slice.
pub proof fn lemma_window_is_slice(p: Seq<u8>, t: Seq<u8>, s: int, e: int, i: int, j: int)
    requires
        0 <= s <= j <= e <= t.len(),
        0 <= i <= p.len(),
    ensures
        window(p, t, s, i, j) == table(p, t.subrange(s, e), i, j - s, true),
    decreases i + j - s,
{
    if i > 0 && j > s {
        lemma_window_is_slice(p, t, s, e, i - 1, j - 1);
        lemma_window_is_slice(p, t, s, e, i - 1, j);
        lemma_window_is_slice(p, t, s, e, i, j - 1);
        assert(t.subrange(s, e)[j - s - 1] == t[j - 1]);
    } else if i > 0 {
    } else {
    }
}

/// The semi-global table is the least window over every start: some start
/// reaches it, none goes below it.
pub proof fn lemma_semi_is_least_window(p: Seq<u8>, t: Seq<u8>, i: int, j: int) -> (s0: int)
    requires
        0 <= i <= p.len(),
        0 <= j <= t.len(),
    ensures
        0 <= s0 <= j,
        window(p, t, s0, i, j) == table(p, t, i, j, false),
        forall|s: int| 0 <= s <= j ==> table(p, t, i, j, false) <= #[trigger] window(p, t, s, i, j),
    decreases i + j,
{
    if i == 0 {
        j
    } else if j == 0 {
        0
    } else {
        let a = lemma_semi_is_least_window(p, t, i - 1, j - 1);
        let b = lemma_semi_is_least_window(p, t, i - 1, j);
        let c = lemma_semi_is_least_window(p, t, i, j - 1);
        let cost: int = if p[i - 1] == t[j - 1] { 0int } else { 1int };
        let semi = table(p, t, i, j, false);
        assert(window(p, t, j, i - 1, j) == i - 1);
        assert(table(p, t, i - 1, j, false) <= i - 1);
        assert forall|s: int| 0 <= s <= j implies semi <= #[trigger] window(p, t, s, i, j) by {
            if s < j {
                assert(table(p, t, i - 1, j - 1, false) <= window(p, t, s, i - 1, j - 1));
                assert(table(p, t, i - 1, j, false) <= window(p, t, s, i - 1, j));
                assert(table(p, t, i, j - 1, false) <= window(p, t, s, i, j - 1));
            }
        }
        if semi == table(p, t, i - 1, j - 1, false) + cost {
            a
        } else if semi == table(p, t, i - 1, j, false) + 1 {
            if b < j {
                b
            } else {
                j
            }
        } else {
            c
        }
    }
}

/// The least bottom cell over the first `n` columns is reached at some
/// column and no column goes below it.
pub proof fn lemma_best_upto(p: Seq<u8>, t: Seq<u8>, n: int) -> (e0: int)
    requires
        0 <= n,
    ensures
        0 <= e0 <= n,
        best_upto(p, t, n) == table(p, t, p.len() as int, e0, false),
        forall|e: int| 0 <= e <= n ==> best_upto(p, t, n) <= #[trigger] table(p, t, p.len() as int, e, false),
    decreases n,
{
    if n == 0 {
        0
    } else {
        let e1 = lemma_best_upto(p, t, n - 1);
        if table(p, t, p.len() as int, n, false) < best_upto(p, t, n - 1) {
            n
        } else {
            e1
        }
    }
}

/// What [`substring_distance`] returns is the least Levenshtein distance
/// between the pattern and any substring of the text, and some substring
/// reaches it.
pub proof fn substring_distance_is_least(p: Seq<u8>, t: Seq<u8>)
    ensures
        forall|s: int, e: int| 0 <= s <= e <= t.len() ==>
            best_upto(p, t, t.len() as int) <= #[trigger] levenshtein(p, t.subrange(s, e)),
        exists|s: int, e: int| 0 <= s <= e <= t.len()
            && best_upto(p, t, t.len() as int) == #[trigger] levenshtein(p, t.subrange(s, e)),
{
    let n = t.len() as int;
    let m = p.len() as int;
    assert forall|s: int, e: int| 0 <= s <= e <= n implies
        best_upto(p, t, n) <= #[trigger] levenshtein(p, t.subrange(s, e)) by {
        lemma_best_upto(p, t, n);
        lemma_semi_is_least_window(p, t, m, e);
        lemma_window_is_slice(p, t, s, e, m, e);
        assert(best_upto(p, t, n) <= table(p, t, m, e, false));
        assert(table(p, t, m, e, false) <= window(p, t, s, m, e));
    }
    let e0 = lemma_best_upto(p, t, n);
    let s0 = lemma_semi_is_least_window(p, t, m, e0);
    lemma_window_is_slice(p, t, s0, e0, m, e0);
    assert(best_upto(p, t, n) == levenshtein(p, t.subrange(s0, e0)));
}

/// An end reported by [`Search::next`] is one at which some substring of
/// the text ending there is within the allowed edits of the pattern, and
/// every such end is reported; the distance reported is the least over
/// every start.
pub proof fn search_ends_are_substring_matches(p: Seq<u8>, t: Seq<u8>, max: int, e: int)
    requires
        0 <= e <= t.len(),
    ensures
        ends_within(p, t, max, e) <==> exists|s: int| 0 <= s <= e && #[trigger] levenshtein(p, t.subrange(s, e)) <= max,
        forall|s: int| 0 <= s <= e ==> table(p, t, p.len() as int, e, false) <= #[trigger] levenshtein(p, t.subrange(s, e)),
        exists|s: int| 0 <= s <= e && table(p, t, p.len() as int, e, false) == #[trigger] levenshtein(p, t.subrange(s, e)),
{
    let m = p.len() as int;
    let s0 = lemma_semi_is_least_window(p, t, m, e);
    lemma_window_is_slice(p, t, s0, e, m, e);
    assert forall|s: int| 0 <= s <= e implies table(p, t, m, e, false) <= #[trigger] levenshtein(p, t.subrange(s, e)) by {
        lemma_window_is_slice(p, t, s, e, m, e);
        assert(table(p, t, m, e, false) <= window(p, t, s, m, e));
    }
    assert(table(p, t, m, e, false) == levenshtein(p, t.subrange(s0, e)));
}

/// The table from the back: the least edits between the pattern's bytes
/// from `i` on and the text's bytes from `j` on.
pub open spec fn suffix_table(p: Seq<u8>, t: Seq<u8>, i: int, j: int) -> int
    decreases (p.len() - i) + (t.len() - j),
{
    if i >= p.len() {
        if j < t.len() { t.len() - j } else { 0 }
    } else if j >= t.len() {
        p.len() - i
    } else {
        min3(
            suffix_table(p, t, i + 1, j + 1) + if p[i] == t[j] { 0int } else { 1int },
            suffix_table(p, t, i + 1, j) + 1,
            suffix_table(p, t, i, j + 1) + 1,
        )
    }
}

/// The table of the reversed bytes is the table from the back.
proof fn lemma_reversed_is_suffix(p: Seq<u8>, t: Seq<u8>, a: int, b: int)
    requires
        0 <= a <= p.len(),
        0 <= b <= t.len(),
    ensures
        table(p.reverse(), t.reverse(), a, b, true) == suffix_table(p, t, p.len() - a, t.len() - b),
    decreases a + b,
{
    if a > 0 && b > 0 {
        lemma_reversed_is_suffix(p, t, a - 1, b - 1);
        lemma_reversed_is_suffix(p, t, a - 1, b);
        lemma_reversed_is_suffix(p, t, a, b - 1);
        assert(p.reverse()[a - 1] == p[p.len() - a]);
        assert(t.reverse()[b - 1] == t[t.len() - b]);
    }
}

/// Finishing from any cell costs no less than the whole table.
proof fn lemma_forward_through(p: Seq<u8>, t: Seq<u8>, i: int, k: int)
    requires
        0 <= i <= p.len(),
        0 <= k <= t.len(),
    ensures
        table(p, t, p.len() as int, t.len() as int, true) <= table(p, t, i, k, true) + suffix_table(p, t, i, k),
    decreases (p.len() - i) + (t.len() - k),
{
    let m = p.len() as int;
    let n = t.len() as int;
    if i == m && k == n {
    } else if i == m {
        lemma_forward_through(p, t, i, k + 1);
        lemma_table_steps(p, t, i, k + 1, true);
    } else if k == n {
        lemma_forward_through(p, t, i + 1, k);
        lemma_table_steps(p, t, i + 1, k, true);
    } else {
        lemma_forward_through(p, t, i + 1, k + 1);
        lemma_forward_through(p, t, i + 1, k);
        lemma_forward_through(p, t, i, k + 1);
        lemma_table_steps(p, t, i + 1, k, true);
        lemma_table_steps(p, t, i, k + 1, true);
    }
}

/// Reaching any cell costs no less, from the back, than the whole table.
proof fn lemma_backward_through(p: Seq<u8>, t: Seq<u8>, i: int, k: int)
    requires
        0 <= i <= p.len(),
        0 <= k <= t.len(),
    ensures
        suffix_table(p, t, 0, 0) <= table(p, t, i, k, true) + suffix_table(p, t, i, k),
    decreases i + k,
{
    let m = p.len() as int;
    let n = t.len() as int;
    if i == 0 && k == 0 {
    } else if i == 0 {
        lemma_backward_through(p, t, i, k - 1);
        assert(suffix_table(p, t, i, k - 1) <= suffix_table(p, t, i, k) + 1);
    } else if k == 0 {
        lemma_backward_through(p, t, i - 1, k);
        assert(suffix_table(p, t, i - 1, k) <= suffix_table(p, t, i, k) + 1);
    } else {
        lemma_backward_through(p, t, i - 1, k - 1);
        lemma_backward_through(p, t, i - 1, k);
        lemma_backward_through(p, t, i, k - 1);
        assert(suffix_table(p, t, i - 1, k - 1) <= suffix_table(p, t, i, k)
            + if p[i - 1] == t[k - 1] { 0int } else { 1int });
        assert(suffix_table(p, t, i - 1, k) <= suffix_table(p, t, i, k) + 1);
        assert(suffix_table(p, t, i, k - 1) <= suffix_table(p, t, i, k) + 1);
    }
}

/// Edit distance does not change when both strings are read backwards.
pub proof fn levenshtein_of_reversed(p: Seq<u8>, t: Seq<u8>)
    ensures
        levenshtein(p.reverse(), t.reverse()) == levenshtein(p, t),
{
    lemma_reversed_is_suffix(p, t, p.len() as int, t.len() as int);
    lemma_forward_through(p, t, 0, 0);
    lemma_backward_through(p, t, p.len() as int, t.len() as int);
}

/// The window from the text's start is the table itself.
proof fn lemma_window_from_start(p: Seq<u8>, t: Seq<u8>, i: int, j: int)
    requires
        0 <= i,
        0 <= j,
    ensures
        window(p, t, 0, i, j) == table(p, t, i, j, true),
    decreases i + j,
{
    if i > 0 && j > 0 {
        lemma_window_from_start(p, t, i - 1, j - 1);
        lemma_window_from_start(p, t, i - 1, j);
        lemma_window_from_start(p, t, i, j - 1);
    }
}

/// The walk back from `end` scores, after `len` bytes, the Levenshtein
/// distance between the pattern and the `len` bytes before `end`.
pub proof fn walk_back_scores_suffixes(p: Seq<u8>, t: Seq<u8>, end: int, len: int)
    requires
        0 <= len <= end <= t.len(),
    ensures
        back_score(p, t, end, len) == levenshtein(p, t.subrange(end - len, end)),
{
    let rt = t.subrange(0, end).reverse();
    let x = t.subrange(end - len, end);
    let m = p.len() as int;
    lemma_window_from_start(p.reverse(), rt, m, len);
    lemma_window_is_slice(p.reverse(), rt, 0, len, m, len);
    assert(rt.subrange(0, len) =~= x.reverse());
    levenshtein_of_reversed(p, x);
}

/// A global alignment costs at least the difference of the lengths.
proof fn lemma_table_at_least_gap(p: Seq<u8>, t: Seq<u8>, i: int, j: int)
    requires
        0 <= i,
        0 <= j,
    ensures
        table(p, t, i, j, true) >= j - i,
    decreases i + j,
{
    if i > 0 && j > 0 {
        lemma_table_at_least_gap(p, t, i - 1, j - 1);
        lemma_table_at_least_gap(p, t, i - 1, j);
        lemma_table_at_least_gap(p, t, i, j - 1);
    }
}

/// The best length of the walk back from an end scores the end's
/// distance: the substring it picks is exactly that many edits away.
proof fn lemma_walk_back_agrees(p: Seq<u8>, t: Seq<u8>, end: int, distance: int, len: int)
    requires
        1 <= p.len(),
        0 <= end <= t.len(),
        distance == table(p, t, p.len() as int, end, false),
        back_best(p, t, end, distance, len),
    ensures
        back_score(p, t, end, len) == distance,
        levenshtein(p, t.subrange(end - len, end)) == distance,
{
    let m = p.len() as int;
    let k = end - back_lo(m, end, distance);
    let s0 = lemma_semi_is_least_window(p, t, m, end);
    lemma_window_is_slice(p, t, s0, end, m, end);
    lemma_table_at_least_gap(p, t.subrange(s0, end), m, end - s0);
    assert(end - s0 <= k);
    walk_back_scores_suffixes(p, t, end, end - s0);
    assert(back_le(p, t, end, len, end - s0));
    walk_back_scores_suffixes(p, t, end, len);
    lemma_window_is_slice(p, t, end - len, end, m, end);
    assert(table(p, t, m, end, false) <= window(p, t, end - len, m, end));
}

} // verus!

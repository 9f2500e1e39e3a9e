//! The tables of a quadrant-recursive curve, three levels at a time: for
//! the `4^k` descendants `k` levels below a node (`1 <= k <= 3`), the
//! column, row and frame of each by its digits, and for every set of
//! columns (rows) the descendants that lie in one of them, as a `u64` in
//! curve order.
//!
//! A curve is given by its one-level digit table: in frame `f`, quadrant
//! `dx | dy << 1` has digit `digit[f][q].0` and frame `digit[f][q].1`
//! below it.
use vstd::prelude::*;
use crate::model::{bit_of, group_bits};

verus! {

broadcast use group_bits;

/// `2^l` for the levels and columns of a table, `l <= 8`.
pub open spec fn pw(l: int) -> int {
    if l <= 0 {
        1
    } else if l == 1 {
        2
    } else if l == 2 {
        4
    } else if l == 3 {
        8
    } else if l == 4 {
        16
    } else if l == 5 {
        32
    } else if l == 6 {
        64
    } else if l == 7 {
        128
    } else {
        256
    }
}

/// `4^l`, `l <= 3`.
pub open spec fn pw4(l: int) -> int {
    if l <= 0 {
        1
    } else if l == 1 {
        4
    } else if l == 2 {
        16
    } else {
        64
    }
}

/// The quadrant of the cell `(cx, cy)` at level `l` below the top of its
/// subtree.
pub open spec fn quad(cx: int, cy: int, l: int) -> int {
    (cx / pw(l)) % 2 + 2 * ((cy / pw(l)) % 2)
}

/// The digits of the cell `(cx, cy)` read from level `l - 1` down to `0`
/// in frame `g`, appended to `p`, and the frame below the last.
pub open spec fn descend(digit: Seq<[(u8, u8); 4]>, g: int, p: int, cx: int, cy: int, l: int) -> (int, int)
    decreases l,
{
    if l <= 0 {
        (p, g)
    } else {
        let e = digit[g]@[quad(cx, cy, l - 1)];
        descend(digit, e.1 as int, 4 * p + e.0 as int, cx, cy, l - 1)
    }
}

/// The descendant number of `(cx, cy)`, `k` levels below a node in frame
/// `f`.
pub open spec fn path(digit: Seq<[(u8, u8); 4]>, f: int, k: int, cx: int, cy: int) -> int {
    descend(digit, f, 0, cx, cy, k).0
}

/// Its frame.
pub open spec fn path_frame(digit: Seq<[(u8, u8); 4]>, f: int, k: int, cx: int, cy: int) -> int {
    descend(digit, f, 0, cx, cy, k).1
}

/// Every frame's four digits are `0..4` in some order, and its frames
/// below are frames of the table.
pub open spec fn digits_ok(digit: Seq<[(u8, u8); 4]>) -> bool {
    &&& forall|f: int, q: int| 0 <= f < digit.len() && 0 <= q < 4 ==> #[trigger] digit[f]@[q].0 < 4 && digit[f]@[q].1 < digit.len()
    &&& forall|f: int, q1: int, q2: int|
        0 <= f < digit.len() && 0 <= q1 < 4 && 0 <= q2 < 4 && q1 != q2 ==> #[trigger] digit[f]@[q1].0 != #[trigger] digit[f]@[q2].0
}

/// Offset of the subtrees of `k` levels in the child and set tables.
pub open spec fn offset(k: int) -> int {
    if k <= 1 {
        0
    } else if k == 2 {
        4
    } else {
        20
    }
}

/// Some column of `m` and some row hold a cell of digits `p`.
pub open spec fn in_cols(digit: Seq<[(u8, u8); 4]>, f: int, k: int, m: u64, p: int) -> bool {
    exists|c: int, r: int| 0 <= c < pw(k) && 0 <= r < pw(k) && bit_of(m, c) && #[trigger] path(digit, f, k, c, r) == p
}

/// Some row of `m` and some column hold a cell of digits `p`.
pub open spec fn in_rows(digit: Seq<[(u8, u8); 4]>, f: int, k: int, m: u64, p: int) -> bool {
    exists|c: int, r: int| 0 <= c < pw(k) && 0 <= r < pw(k) && bit_of(m, r) && #[trigger] path(digit, f, k, c, r) == p
}

proof fn lemma_descend_bounds(digit: Seq<[(u8, u8); 4]>, g: int, p: int, cx: int, cy: int, l: int)
    requires
        digits_ok(digit),
        0 <= g < digit.len(),
        0 <= p,
        0 <= l <= 3,
    ensures
        descend(digit, g, p, cx, cy, l).0 == p * pw4(l) + descend(digit, g, 0, cx, cy, l).0,
        0 <= descend(digit, g, 0, cx, cy, l).0 < pw4(l),
        0 <= descend(digit, g, p, cx, cy, l).1 < digit.len(),
    decreases l,
{
    if l > 0 {
        let q = quad(cx, cy, l - 1);
        assert(0 <= q < 4);
        let e = digit[g]@[q];
        assert(e.0 < 4 && e.1 < digit.len());
        let d = e.0 as int;
        let h = e.1 as int;
        let pp = 4 * p + d;
        let w = pw4(l - 1);
        lemma_descend_bounds(digit, h, pp, cx, cy, l - 1);
        lemma_descend_bounds(digit, h, d, cx, cy, l - 1);
        let r = descend(digit, h, 0, cx, cy, l - 1).0;
        assert(descend(digit, g, p, cx, cy, l) == descend(digit, h, pp, cx, cy, l - 1));
        assert(descend(digit, g, 0, cx, cy, l) == descend(digit, h, d, cx, cy, l - 1));
        assert(pw4(l) == 4 * w);
        assert(pp * w == p * pw4(l) + d * w) by (nonlinear_arith)
            requires pw4(l) == 4 * w, pp == 4 * p + d;
        assert(d * w + w <= pw4(l)) by (nonlinear_arith)
            requires pw4(l) == 4 * w, d < 4, w >= 1;
        assert(0 <= d * w) by (nonlinear_arith)
            requires 0 <= d, w >= 1;
    } else {
        assert(pw4(l) == 1);
        assert(p * pw4(l) == p) by (nonlinear_arith)
            requires pw4(l) == 1;
    }
}

/// Different cells of a subtree have different digits.
proof fn lemma_descend_injective(digit: Seq<[(u8, u8); 4]>, g: int, a: (int, int), b: (int, int), l: int)
    requires
        digits_ok(digit),
        0 <= g < digit.len(),
        0 <= l <= 3,
        descend(digit, g, 0, a.0, a.1, l).0 == descend(digit, g, 0, b.0, b.1, l).0,
    ensures
        forall|j: int| 0 <= j < l ==> #[trigger] quad(a.0, a.1, j) == quad(b.0, b.1, j),
    decreases l,
{
    if l > 0 {
        let qa = quad(a.0, a.1, l - 1);
        let qb = quad(b.0, b.1, l - 1);
        let ea = digit[g]@[qa];
        let eb = digit[g]@[qb];
        lemma_descend_bounds(digit, ea.1 as int, ea.0 as int, a.0, a.1, l - 1);
        lemma_descend_bounds(digit, eb.1 as int, eb.0 as int, b.0, b.1, l - 1);
        let ra = descend(digit, ea.1 as int, 0, a.0, a.1, l - 1).0;
        let rb = descend(digit, eb.1 as int, 0, b.0, b.1, l - 1).0;
        assert(ea.0 == eb.0) by {
            assert(ea.0 * pw4(l - 1) + ra == eb.0 * pw4(l - 1) + rb);
            if ea.0 < eb.0 {
                assert(ea.0 * pw4(l - 1) + pw4(l - 1) <= eb.0 * pw4(l - 1)) by (nonlinear_arith)
                    requires ea.0 < eb.0;
            }
            if eb.0 < ea.0 {
                assert(eb.0 * pw4(l - 1) + pw4(l - 1) <= ea.0 * pw4(l - 1)) by (nonlinear_arith)
                    requires eb.0 < ea.0;
            }
        }
        assert(qa == qb);
        lemma_descend_injective(digit, ea.1 as int, a, b, l - 1);
    }
}

proof fn lemma_three_bits(v: int)
    requires
        0 <= v < 8,
    ensures
        v == v % 2 + 2 * ((v / 2) % 2) + 4 * ((v / 4) % 2),
        v < 4 ==> (v / 4) % 2 == 0,
        v < 2 ==> (v / 2) % 2 == 0,
{
}

/// A cell of a subtree is settled by its quadrants.
proof fn lemma_cell_by_quads(a: (int, int), b: (int, int), l: int)
    requires
        0 <= l <= 3,
        0 <= a.0 < pw(l) && 0 <= a.1 < pw(l),
        0 <= b.0 < pw(l) && 0 <= b.1 < pw(l),
        forall|j: int| 0 <= j < l ==> #[trigger] quad(a.0, a.1, j) == quad(b.0, b.1, j),
    ensures
        a == b,
{
    assert(pw(0) == 1 && pw(1) == 2 && pw(2) == 4 && pw(3) == 8);
    lemma_three_bits(a.0);
    lemma_three_bits(a.1);
    lemma_three_bits(b.0);
    lemma_three_bits(b.1);
    if l >= 1 {
        assert(quad(a.0, a.1, 0) == quad(b.0, b.1, 0));
        assert(a.0 % 2 == b.0 % 2 && a.1 % 2 == b.1 % 2);
    }
    if l >= 2 {
        assert(quad(a.0, a.1, 1) == quad(b.0, b.1, 1));
        assert((a.0 / 2) % 2 == (b.0 / 2) % 2 && (a.1 / 2) % 2 == (b.1 / 2) % 2);
    }
    if l >= 3 {
        assert(quad(a.0, a.1, 2) == quad(b.0, b.1, 2));
        assert((a.0 / 4) % 2 == (b.0 / 4) % 2 && (a.1 / 4) % 2 == (b.1 / 4) % 2);
    }
}

/// The digits of a descendant `k` levels down are below `4^k`, and its
/// frame is one of the table's.
pub proof fn lemma_path_bounds(digit: Seq<[(u8, u8); 4]>, f: int, k: int, cx: int, cy: int)
    requires
        digits_ok(digit),
        0 <= f < digit.len(),
        0 <= k <= 3,
    ensures
        0 <= path(digit, f, k, cx, cy) < pw4(k),
        0 <= path_frame(digit, f, k, cx, cy) < digit.len(),
{
    lemma_descend_bounds(digit, f, 0, cx, cy, k);
}

/// Cells of a subtree with the same digits are the same cell.
pub proof fn lemma_path_injective(digit: Seq<[(u8, u8); 4]>, f: int, k: int, a: (int, int), b: (int, int))
    requires
        digits_ok(digit),
        0 <= f < digit.len(),
        1 <= k <= 3,
        0 <= a.0 < pw(k) && 0 <= a.1 < pw(k),
        0 <= b.0 < pw(k) && 0 <= b.1 < pw(k),
        path(digit, f, k, a.0, a.1) == path(digit, f, k, b.0, b.1),
    ensures
        a == b,
{
    lemma_descend_injective(digit, f, a, b, k);
    lemma_cell_by_quads(a, b, k);
}

/// The digits and the frame of the cell `(cx, cy)` of a subtree of `k`
/// levels in frame `f`, one level at a time from the top.
fn descend_cell(digit: &[[(u8, u8); 4]], f: usize, k: usize, cx: usize, cy: usize) -> (r: (usize, usize))
    requires
        digits_ok(digit@),
        f < digit@.len(),
        1 <= k <= 3,
        cx < pw(k as int),
        cy < pw(k as int),
    ensures
        r.0 == path(digit@, f as int, k as int, cx as int, cy as int),
        r.1 == path_frame(digit@, f as int, k as int, cx as int, cy as int),
        r.0 < pw4(k as int),
        r.1 < digit@.len(),
{
    let mut p: usize = 0;
    let mut g: usize = f;
    let mut l: usize = k;
    let mut half: usize = if k == 1 { 1 } else if k == 2 { 2 } else { 4 };
    proof {
        lemma_descend_bounds(digit@, f as int, 0, cx as int, cy as int, k as int);
    }
    while l > 0
        invariant
            digits_ok(digit@),
            1 <= k <= 3,
            l <= k,
            g < digit@.len(),
            p < pw4(k - l),
            l >= 1 ==> half == pw(l - 1),
            descend(digit@, g as int, p as int, cx as int, cy as int, l as int) == descend(digit@, f as int, 0, cx as int, cy as int, k as int),
        decreases l,
    {
        l = l - 1;
        let q = (cx / half) % 2 + 2 * ((cy / half) % 2);
        assert(q == quad(cx as int, cy as int, l as int));
        let e = digit[g][q];
        proof {
            assert(e.0 < 4 && e.1 < digit@.len());
            assert(pw4(k - l) == 4 * pw4(k - l - 1));
        }
        p = 4 * p + e.0 as usize;
        g = e.1 as usize;
        half = half / 2;
    }
    (p, g)
}

/// The one-word sets of a subtree: for every set `m` of columns (rows),
/// the descendants in one of them, the OR of the per-column words.
fn fill_sets(col: &[u64; 8], side: usize, out: &mut Vec<u64>, base: usize)
    requires
        side == 2 || side == 4 || side == 8,
        base + pw(side as int) <= old(out)@.len(),
    ensures
        final(out)@.len() == old(out)@.len(),
        forall|i: int| 0 <= i < old(out)@.len() && (i < base || i >= base + pw(side as int)) ==> #[trigger] final(out)@[i] == old(out)@[i],
        forall|m: int, p: int| 0 <= m < pw(side as int) && 0 <= p < 64 ==> #[trigger] bit_of(final(out)@[base + m], p)
            == exists|c: int| 0 <= c < side && bit_of(m as u64, c) && #[trigger] bit_of(col@[c], p),
{
    let count: usize = if side == 2 { 4 } else if side == 4 { 16 } else { 256 };
    let mut m: usize = 0;
    while m < count
        invariant
            side == 2 || side == 4 || side == 8,
            count == pw(side as int),
            base + count <= out@.len(),
            out@.len() == old(out)@.len(),
            m <= count,
            forall|i: int| 0 <= i < old(out)@.len() && (i < base || i >= base + m) ==> #[trigger] out@[i] == old(out)@[i],
            forall|m2: int, p: int| 0 <= m2 < m && 0 <= p < 64 ==> #[trigger] bit_of(out@[base + m2], p)
                == exists|c: int| 0 <= c < side && bit_of(m2 as u64, c) && #[trigger] bit_of(col@[c], p),
        decreases count - m,
    {
        let mut acc: u64 = 0;
        let mut c: usize = 0;
        while c < side
            invariant
                side == 2 || side == 4 || side == 8,
                c <= side,
                forall|p: int| 0 <= p < 64 ==> #[trigger] bit_of(acc, p)
                    == exists|c2: int| 0 <= c2 < c && bit_of(m as u64, c2) && #[trigger] bit_of(col@[c2], p),
            decreases side - c,
        {
            if ((m as u64) >> (c as u64)) & 1 == 1 {
                let ghost before = acc;
                acc = acc | col[c];
                proof {
                    assert forall|p: int| 0 <= p < 64 implies #[trigger] bit_of(acc, p)
                        == exists|c2: int| 0 <= c2 < c + 1 && bit_of(m as u64, c2) && #[trigger] bit_of(col@[c2], p) by {
                        if bit_of(col@[c as int], p) {
                            assert(0 <= c < c + 1 && bit_of(m as u64, c as int) && bit_of(col@[c as int], p));
                        }
                    }
                }
            } else {
                proof {
                    assert forall|p: int| 0 <= p < 64 implies #[trigger] bit_of(acc, p)
                        == exists|c2: int| 0 <= c2 < c + 1 && bit_of(m as u64, c2) && #[trigger] bit_of(col@[c2], p) by {
                        if exists|c2: int| 0 <= c2 < c + 1 && bit_of(m as u64, c2) && #[trigger] bit_of(col@[c2], p) {
                            let c2 = choose|c2: int| 0 <= c2 < c + 1 && bit_of(m as u64, c2) && #[trigger] bit_of(col@[c2], p);
                            assert(c2 != c);
                        }
                    }
                }
            }
            c = c + 1;
        }
        let len = out.len();
        assert(base + m < len);
        out.set(base + m, acc);
        m = m + 1;
    }
}

/// The per-column and per-row words of a subtree of `k` levels in frame
/// `f`, writing each descendant's column, row and frame into `child` at
/// `base` plus its digits.
fn fill_frame(digit: &[[(u8, u8); 4]], f: usize, k: usize, child: &mut Vec<(u8, u8, u8)>, base: usize) -> (r: ([u64; 8], [u64; 8]))
    requires
        digits_ok(digit@),
        f < digit@.len() <= 256,
        1 <= k <= 3,
        base + pw4(k as int) <= old(child)@.len(),
        forall|i: int| 0 <= i < old(child)@.len() ==> #[trigger] old(child)@[i].2 < digit@.len() && old(child)@[i].0 < 8 && old(child)@[i].1 < 8,
    ensures
        final(child)@.len() == old(child)@.len(),
        forall|i: int| 0 <= i < final(child)@.len() ==> #[trigger] final(child)@[i].2 < digit@.len() && final(child)@[i].0 < 8 && final(child)@[i].1 < 8,
        forall|i: int| 0 <= i < old(child)@.len() && (i < base || i >= base + pw4(k as int)) ==> #[trigger] final(child)@[i] == old(child)@[i],
        forall|cx: int, cy: int| 0 <= cx < pw(k as int) && 0 <= cy < pw(k as int) ==> #[trigger] final(child)@[base + path(digit@, f as int, k as int, cx, cy)]
            == (cx as u8, cy as u8, path_frame(digit@, f as int, k as int, cx, cy) as u8),
        forall|c: int, p: int| 0 <= c < 8 && 0 <= p < 64 ==> #[trigger] bit_of(r.0@[c], p)
            == (c < pw(k as int) && exists|y: int| 0 <= y < pw(k as int) && #[trigger] path(digit@, f as int, k as int, c, y) == p),
        forall|c: int, p: int| 0 <= c < 8 && 0 <= p < 64 ==> #[trigger] bit_of(r.1@[c], p)
            == (c < pw(k as int) && exists|x: int| 0 <= x < pw(k as int) && #[trigger] path(digit@, f as int, k as int, x, c) == p),
{
    let side: usize = if k == 1 { 2 } else if k == 2 { 4 } else { 8 };
    let mut col = [0u64; 8];
    let mut row = [0u64; 8];
    let ghost dg = digit@;
    let ghost fi = f as int;
    let ghost ki = k as int;
    let mut cx: usize = 0;
    while cx < side
        invariant
            digits_ok(dg),
            dg == digit@,
            fi == f,
            ki == k,
            f < digit@.len() <= 256,
            1 <= k <= 3,
            side == pw(ki),
            base + pw4(ki) <= child@.len(),
            child@.len() == old(child)@.len(),
            forall|i: int| 0 <= i < child@.len() ==> #[trigger] child@[i].2 < digit@.len() && child@[i].0 < 8 && child@[i].1 < 8,
            cx <= side,
            forall|i: int| 0 <= i < old(child)@.len() && (i < base || i >= base + pw4(ki)) ==> #[trigger] child@[i] == old(child)@[i],
            forall|x: int, y: int| 0 <= x < cx && 0 <= y < side ==> #[trigger] child@[base + path(dg, fi, ki, x, y)]
                == (x as u8, y as u8, path_frame(dg, fi, ki, x, y) as u8),
            forall|c: int, p: int| 0 <= c < 8 && 0 <= p < 64 ==> #[trigger] bit_of(col@[c], p)
                == (c < cx && exists|y: int| 0 <= y < side && #[trigger] path(dg, fi, ki, c, y) == p),
            forall|c: int, p: int| 0 <= c < 8 && 0 <= p < 64 ==> #[trigger] bit_of(row@[c], p)
                == (c < side && exists|x: int| 0 <= x < cx && #[trigger] path(dg, fi, ki, x, c) == p),
        decreases side - cx,
    {
        let mut cy: usize = 0;
        while cy < side
            invariant
                digits_ok(dg),
                dg == digit@,
                fi == f,
                ki == k,
                f < digit@.len() <= 256,
                1 <= k <= 3,
                side == pw(ki),
                cx < side,
                base + pw4(ki) <= child@.len(),
                child@.len() == old(child)@.len(),
                forall|i: int| 0 <= i < child@.len() ==> #[trigger] child@[i].2 < digit@.len() && child@[i].0 < 8 && child@[i].1 < 8,
            forall|i: int| 0 <= i < child@.len() ==> #[trigger] child@[i].2 < digit@.len() && child@[i].0 < 8 && child@[i].1 < 8,
                cy <= side,
                forall|i: int| 0 <= i < old(child)@.len() && (i < base || i >= base + pw4(ki)) ==> #[trigger] child@[i] == old(child)@[i],
                forall|x: int, y: int| 0 <= x < side && 0 <= y < side && (x < cx || (x == cx && y < cy)) ==> #[trigger] child@[base + path(dg, fi, ki, x, y)]
                    == (x as u8, y as u8, path_frame(dg, fi, ki, x, y) as u8),
                forall|c: int, p: int| 0 <= c < 8 && 0 <= p < 64 ==> #[trigger] bit_of(col@[c], p)
                    == ((c < cx && exists|y: int| 0 <= y < side && #[trigger] path(dg, fi, ki, c, y) == p)
                        || (c == cx && exists|y: int| 0 <= y < cy && #[trigger] path(dg, fi, ki, c, y) == p)),
                forall|c: int, p: int| 0 <= c < 8 && 0 <= p < 64 ==> #[trigger] bit_of(row@[c], p)
                    == (c < side && exists|x: int| 0 <= x < side && (x < cx || (x == cx && c < cy)) && #[trigger] path(dg, fi, ki, x, c) == p),
            decreases side - cy,
        {
            let (p, g) = descend_cell(digit, f, k, cx, cy);
            let ghost before = child@;
            let len = child.len();
            assert(base + p < len);
            child.set(base + p, (cx as u8, cy as u8, g as u8));
            proof {
                assert forall|x: int, y: int| 0 <= x < side && 0 <= y < side && (x < cx || (x == cx && y < cy + 1)) implies #[trigger] child@[base + path(dg, fi, ki, x, y)]
                    == (x as u8, y as u8, path_frame(dg, fi, ki, x, y) as u8) by {
                    lemma_descend_bounds(dg, fi, 0, x, y, ki);
                    if !(x == cx && y == cy) {
                        if path(dg, fi, ki, x, y) == p {
                            lemma_path_injective(dg, fi, ki, (x, y), (cx as int, cy as int));
                        }
                        assert(child@[base + path(dg, fi, ki, x, y)] == before[base + path(dg, fi, ki, x, y)]);
                    }
                }
            }
            let ghost col0 = col;
            let ghost row0 = row;
            col.set(cx, col[cx] | (1u64 << (p as u64)));
            row.set(cy, row[cy] | (1u64 << (p as u64)));
            proof {
                assert forall|c: int, q: int| 0 <= c < 8 && 0 <= q < 64 implies #[trigger] bit_of(col@[c], q)
                    == ((c < cx && exists|y: int| 0 <= y < side && #[trigger] path(dg, fi, ki, c, y) == q)
                        || (c == cx && exists|y: int| 0 <= y < cy + 1 && #[trigger] path(dg, fi, ki, c, y) == q)) by {
                    if c == cx {
                        if q == p {
                            assert(path(dg, fi, ki, c, cy as int) == q);
                        } else {
                            if exists|y: int| 0 <= y < cy + 1 && #[trigger] path(dg, fi, ki, c, y) == q {
                                let y = choose|y: int| 0 <= y < cy + 1 && #[trigger] path(dg, fi, ki, c, y) == q;
                                assert(y != cy);
                            }
                        }
                    } else {
                        assert(col@[c] == col0@[c]);
                    }
                }
                assert forall|c: int, q: int| 0 <= c < 8 && 0 <= q < 64 implies #[trigger] bit_of(row@[c], q)
                    == (c < side && exists|x: int| 0 <= x < side && (x < cx || (x == cx && c < cy + 1)) && #[trigger] path(dg, fi, ki, x, c) == q) by {
                    if c == cy {
                        if q == p {
                            assert(path(dg, fi, ki, cx as int, c) == q);
                        } else {
                            if exists|x: int| 0 <= x < side && (x < cx || (x == cx && c < cy + 1)) && #[trigger] path(dg, fi, ki, x, c) == q {
                                let x = choose|x: int| 0 <= x < side && (x < cx || (x == cx && c < cy + 1)) && #[trigger] path(dg, fi, ki, x, c) == q;
                                assert(x != cx);
                            }
                        }
                    } else {
                        assert(row@[c] == row0@[c]);
                    }
                }
            }
            cy = cy + 1;
        }
        cx = cx + 1;
    }
    (col, row)
}

/// The child table holds the subtrees of `k` levels in frame `f`.
pub open spec fn child_ok(child: Seq<(u8, u8, u8)>, digit: Seq<[(u8, u8); 4]>, f: int, k: int) -> bool {
    forall|cx: int, cy: int| 0 <= cx < pw(k) && 0 <= cy < pw(k) ==> #[trigger] child[84 * f + offset(k) + path(digit, f, k, cx, cy)]
        == (cx as u8, cy as u8, path_frame(digit, f, k, cx, cy) as u8)
}

/// The column sets of the subtrees of `k` levels in frame `f`.
pub open spec fn cols_ok(cols: Seq<u64>, digit: Seq<[(u8, u8); 4]>, f: int, k: int) -> bool {
    forall|m: int, p: int| 0 <= m < pw(pw(k)) && 0 <= p < 64 ==> #[trigger] bit_of(cols[276 * f + offset(k) + m], p)
        == (p < pw4(k) && in_cols(digit, f, k, m as u64, p))
}

/// The row sets of the subtrees of `k` levels in frame `f`.
pub open spec fn rows_ok(rows: Seq<u64>, digit: Seq<[(u8, u8); 4]>, f: int, k: int) -> bool {
    forall|m: int, p: int| 0 <= m < pw(pw(k)) && 0 <= p < 64 ==> #[trigger] bit_of(rows[276 * f + offset(k) + m], p)
        == (p < pw4(k) && in_rows(digit, f, k, m as u64, p))
}

/// The tables of one curve, every frame back to back.
pub struct Masks {
    frames: usize,
    child: Vec<(u8, u8, u8)>,
    cols: Vec<u64>,
    rows: Vec<u64>,
    digits: Ghost<Seq<[(u8, u8); 4]>>,
}

impl Masks {
    /// The tables are those of `digit`.
    pub closed spec fn of(&self, digit: Seq<[(u8, u8); 4]>) -> bool {
        &&& self.frames == digit.len()
        &&& self.child@.len() == 84 * digit.len()
        &&& self.cols@.len() == 276 * digit.len()
        &&& self.rows@.len() == 276 * digit.len()
        &&& forall|f: int, k: int| 0 <= f < digit.len() && 1 <= k <= 3 ==> #[trigger] child_ok(self.child@, digit, f, k)
        &&& forall|f: int, k: int| 0 <= f < digit.len() && 1 <= k <= 3 ==> #[trigger] cols_ok(self.cols@, digit, f, k)
        &&& forall|f: int, k: int| 0 <= f < digit.len() && 1 <= k <= 3 ==> #[trigger] rows_ok(self.rows@, digit, f, k)
        &&& forall|i: int| 0 <= i < self.child@.len() ==> #[trigger] self.child@[i].2 < digit.len() && self.child@[i].0 < 8 && self.child@[i].1 < 8
    }

    /// The digit table the tables were built from.
    pub closed spec fn table(&self) -> Seq<[(u8, u8); 4]> {
        self.digits@
    }

    /// The tables are those of their digit table, a valid one.
    pub closed spec fn wf(&self) -> bool {
        &&& self.of(self.digits@)
        &&& digits_ok(self.digits@)
        &&& 1 <= self.digits@.len() <= 256
    }

    /// A valid table's digits are a permutation at every frame, and there
    /// are one to 256 frames.
    pub proof fn lemma_wf(&self)
        requires
            self.wf(),
        ensures
            digits_ok(self.table()),
            1 <= self.table().len() <= 256,
    {
    }

    /// Of the `4^k` descendants `k` levels down from a node in `frame`,
    /// those in one of the columns `cols` and one of the rows `rows`, as
    /// bit `p` for digits `p`.
    pub fn cells(&self, k: u32, frame: u8, cols: u64, rows: u64) -> (r: u64)
        requires
            self.wf(),
            1 <= k <= 3,
            frame < self.table().len(),
            cols < pw(pw(k as int)),
            rows < pw(pw(k as int)),
        ensures
            forall|p: int| 0 <= p < 64 ==> #[trigger] bit_of(r, p) == (p < pw4(k as int) && in_cols(self.table(), frame as int, k as int, cols, p)
                && in_rows(self.table(), frame as int, k as int, rows, p)),
    {
        let off: usize = if k == 1 { 0 } else if k == 2 { 4 } else { 20 };
        let f = frame as usize;
        proof {
            assert(cols_ok(self.cols@, self.digits@, f as int, k as int));
            assert(rows_ok(self.rows@, self.digits@, f as int, k as int));
        }
        let a = self.cols[276 * f + off + cols as usize];
        let b = self.rows[276 * f + off + rows as usize];
        proof {
            assert forall|p: int| 0 <= p < 64 implies #[trigger] bit_of(a & b, p) == (p < pw4(k as int) && in_cols(self.table(), frame as int, k as int, cols, p)
                && in_rows(self.table(), frame as int, k as int, rows, p)) by {
                assert(bit_of(self.cols@[276 * f + offset(k as int) + cols as int], p) == (p < pw4(k as int) && in_cols(self.digits@, f as int, k as int, cols, p)));
                assert(bit_of(self.rows@[276 * f + offset(k as int) + rows as int], p) == (p < pw4(k as int) && in_rows(self.digits@, f as int, k as int, rows, p)));
            }
        }
        a & b
    }

    /// The descendant `k` levels down whose digits read `p`: its column and
    /// row in `0..2^k` and its frame.
    pub fn child(&self, k: u32, frame: u8, p: u32) -> (r: (u8, u8, u8))
        requires
            self.wf(),
            1 <= k <= 3,
            frame < self.table().len(),
            p < pw4(k as int),
        ensures
            forall|cx: int, cy: int| 0 <= cx < pw(k as int) && 0 <= cy < pw(k as int) && #[trigger] path(self.table(), frame as int, k as int, cx, cy) == p
                ==> r == (cx as u8, cy as u8, path_frame(self.table(), frame as int, k as int, cx, cy) as u8),
            r.2 < self.table().len(),
            r.0 < 8,
            r.1 < 8,
    {
        let off: usize = if k == 1 { 0 } else if k == 2 { 4 } else { 20 };
        let f = frame as usize;
        proof {
            assert(child_ok(self.child@, self.digits@, f as int, k as int));
        }
        let e = self.child[84 * f + off + p as usize];
        proof {
            assert(e.2 < self.digits@.len() && e.0 < 8 && e.1 < 8);
            assert(off == offset(k as int));
            assert forall|cx: int, cy: int| 0 <= cx < pw(k as int) && 0 <= cy < pw(k as int) && #[trigger] path(self.table(), frame as int, k as int, cx, cy) == p
                implies e == (cx as u8, cy as u8, path_frame(self.table(), frame as int, k as int, cx, cy) as u8) by {
                assert(self.child@[84 * f + offset(k as int) + path(self.digits@, f as int, k as int, cx, cy)] == (cx as u8, cy as u8, path_frame(self.digits@, f as int, k as int, cx, cy) as u8));
            }
        }
        e
    }

    /// The tables of the curve whose one-level digit table is `digit`.
    pub fn build(digit: &[[(u8, u8); 4]]) -> (r: Masks)
        requires
            digits_ok(digit@),
            1 <= digit@.len() <= 256,
        ensures
            r.wf(),
            r.table() == digit@,
    {
        let nf = digit.len();
        let mut child: Vec<(u8, u8, u8)> = Vec::new();
        let mut cols: Vec<u64> = Vec::new();
        let mut rows: Vec<u64> = Vec::new();
        let mut i: usize = 0;
        while i < 84 * nf
            invariant
                nf <= 256,
                1 <= nf,
                i <= 84 * nf,
                child@.len() == i,
                forall|i: int| 0 <= i < child@.len() ==> #[trigger] child@[i].2 < nf && child@[i].0 < 8 && child@[i].1 < 8,
            decreases 84 * nf - i,
        {
            child.push((0, 0, 0));
            i = i + 1;
        }
        i = 0;
        while i < 276 * nf
            invariant
                nf <= 256,
                1 <= nf,
                child@.len() == 84 * nf,
                forall|i: int| 0 <= i < child@.len() ==> #[trigger] child@[i].2 < nf && child@[i].0 < 8 && child@[i].1 < 8,
                i <= 276 * nf,
                cols@.len() == i,
                rows@.len() == i,
            decreases 276 * nf - i,
        {
            cols.push(0);
            rows.push(0);
            i = i + 1;
        }
        let ghost dg = digit@;
        let mut k: usize = 1;
        while k <= 3
            invariant
                dg == digit@,
                digits_ok(dg),
                nf == dg.len(),
                1 <= nf <= 256,
                1 <= k <= 4,
                child@.len() == 84 * nf,
                forall|i: int| 0 <= i < child@.len() ==> #[trigger] child@[i].2 < nf && child@[i].0 < 8 && child@[i].1 < 8,
                cols@.len() == 276 * nf,
                rows@.len() == 276 * nf,
                forall|f: int, k2: int| 0 <= f < nf && 1 <= k2 < k ==> #[trigger] child_ok(child@, dg, f, k2),
                forall|f: int, k2: int| 0 <= f < nf && 1 <= k2 < k ==> #[trigger] cols_ok(cols@, dg, f, k2),
                forall|f: int, k2: int| 0 <= f < nf && 1 <= k2 < k ==> #[trigger] rows_ok(rows@, dg, f, k2),
            decreases 4 - k,
        {
            let side: usize = if k == 1 { 2 } else if k == 2 { 4 } else { 8 };
            let off: usize = if k == 1 { 0 } else if k == 2 { 4 } else { 20 };
            let mut f: usize = 0;
            while f < nf
                invariant
                    dg == digit@,
                    digits_ok(dg),
                    nf == dg.len(),
                    1 <= nf <= 256,
                    1 <= k <= 3,
                    side == pw(k as int),
                    off == offset(k as int),
                    f <= nf,
                    child@.len() == 84 * nf,
                    forall|i: int| 0 <= i < child@.len() ==> #[trigger] child@[i].2 < nf && child@[i].0 < 8 && child@[i].1 < 8,
                    cols@.len() == 276 * nf,
                    rows@.len() == 276 * nf,
                    forall|f2: int, k2: int| 0 <= f2 < nf && 1 <= k2 <= 3 && (k2 < k || (k2 == k && f2 < f)) ==> #[trigger] child_ok(child@, dg, f2, k2),
                    forall|f2: int, k2: int| 0 <= f2 < nf && 1 <= k2 <= 3 && (k2 < k || (k2 == k && f2 < f)) ==> #[trigger] cols_ok(cols@, dg, f2, k2),
                    forall|f2: int, k2: int| 0 <= f2 < nf && 1 <= k2 <= 3 && (k2 < k || (k2 == k && f2 < f)) ==> #[trigger] rows_ok(rows@, dg, f2, k2),
                decreases nf - f,
            {
                let ghost child0 = child@;
                let ghost cols0 = cols@;
                let ghost rows0 = rows@;
                let (col, row) = fill_frame(digit, f, k, &mut child, 84 * f + off);
                fill_sets(&col, side, &mut cols, 276 * f + off);
                fill_sets(&row, side, &mut rows, 276 * f + off);
                proof {
                    let fi = f as int;
                    let ki = k as int;
                    assert forall|f2: int, k2: int| 0 <= f2 < nf && 1 <= k2 <= 3 && (k2 < k || (k2 == k && f2 < f + 1)) implies #[trigger] child_ok(child@, dg, f2, k2) by {
                        if !(f2 == fi && k2 == ki) {
                            assert(child_ok(child0, dg, f2, k2));
                            assert forall|cx: int, cy: int| 0 <= cx < pw(k2) && 0 <= cy < pw(k2) implies #[trigger] child@[84 * f2 + offset(k2) + path(dg, f2, k2, cx, cy)]
                                == (cx as u8, cy as u8, path_frame(dg, f2, k2, cx, cy) as u8) by {
                                lemma_descend_bounds(dg, f2, 0, cx, cy, k2);
                                assert(child0[84 * f2 + offset(k2) + path(dg, f2, k2, cx, cy)] == (cx as u8, cy as u8, path_frame(dg, f2, k2, cx, cy) as u8));
                            }
                        }
                    }
                    assert forall|f2: int, k2: int| 0 <= f2 < nf && 1 <= k2 <= 3 && (k2 < k || (k2 == k && f2 < f + 1)) implies #[trigger] cols_ok(cols@, dg, f2, k2) by {
                        if !(f2 == fi && k2 == ki) {
                            assert(cols_ok(cols0, dg, f2, k2));
                            assert forall|m: int, p: int| 0 <= m < pw(pw(k2)) && 0 <= p < 64 implies #[trigger] bit_of(cols@[276 * f2 + offset(k2) + m], p)
                                == (p < pw4(k2) && in_cols(dg, f2, k2, m as u64, p)) by {
                                assert(bit_of(cols0[276 * f2 + offset(k2) + m], p) == (p < pw4(k2) && in_cols(dg, f2, k2, m as u64, p)));
                            }
                        } else {
                            lemma_sets_from_columns(dg, fi, ki, col, cols@, 276 * fi + offset(ki));
                        }
                    }
                    assert forall|f2: int, k2: int| 0 <= f2 < nf && 1 <= k2 <= 3 && (k2 < k || (k2 == k && f2 < f + 1)) implies #[trigger] rows_ok(rows@, dg, f2, k2) by {
                        if !(f2 == fi && k2 == ki) {
                            assert(rows_ok(rows0, dg, f2, k2));
                            assert forall|m: int, p: int| 0 <= m < pw(pw(k2)) && 0 <= p < 64 implies #[trigger] bit_of(rows@[276 * f2 + offset(k2) + m], p)
                                == (p < pw4(k2) && in_rows(dg, f2, k2, m as u64, p)) by {
                                assert(bit_of(rows0[276 * f2 + offset(k2) + m], p) == (p < pw4(k2) && in_rows(dg, f2, k2, m as u64, p)));
                            }
                        } else {
                            lemma_sets_from_rows(dg, fi, ki, row, rows@, 276 * fi + offset(ki));
                        }
                    }
                }
                f = f + 1;
            }
            k = k + 1;
        }
        Masks { frames: nf, child, cols, rows, digits: Ghost(dg) }
    }
}

/// The OR of the column words over a set of columns is the set's word.
proof fn lemma_sets_from_columns(digit: Seq<[(u8, u8); 4]>, f: int, k: int, col: [u64; 8], sets: Seq<u64>, base: int)
    requires
        digits_ok(digit),
        0 <= f < digit.len(),
        1 <= k <= 3,
        forall|c: int, p: int| 0 <= c < 8 && 0 <= p < 64 ==> #[trigger] bit_of(col@[c], p)
            == (c < pw(k) && exists|y: int| 0 <= y < pw(k) && #[trigger] path(digit, f, k, c, y) == p),
        forall|m: int, p: int| 0 <= m < pw(pw(k)) && 0 <= p < 64 ==> #[trigger] bit_of(sets[base + m], p)
            == exists|c: int| 0 <= c < pw(k) && bit_of(m as u64, c) && #[trigger] bit_of(col@[c], p),
        base == 276 * f + offset(k),
    ensures
        cols_ok(sets, digit, f, k),
{
    assert forall|m: int, p: int| 0 <= m < pw(pw(k)) && 0 <= p < 64 implies #[trigger] bit_of(sets[276 * f + offset(k) + m], p)
        == (p < pw4(k) && in_cols(digit, f, k, m as u64, p)) by {
        assert(bit_of(sets[base + m], p) == exists|c: int| 0 <= c < pw(k) && bit_of(m as u64, c) && #[trigger] bit_of(col@[c], p));
        if bit_of(sets[base + m], p) {
            let c = choose|c: int| 0 <= c < pw(k) && bit_of(m as u64, c) && #[trigger] bit_of(col@[c], p);
            assert(bit_of(col@[c], p));
            let y = choose|y: int| 0 <= y < pw(k) && #[trigger] path(digit, f, k, c, y) == p;
            lemma_descend_bounds(digit, f, 0, c, y, k);
            assert(path(digit, f, k, c, y) == p);
        }
        if p < pw4(k) && in_cols(digit, f, k, m as u64, p) {
            let (c, y) = choose|c: int, r: int| 0 <= c < pw(k) && 0 <= r < pw(k) && bit_of(m as u64, c) && #[trigger] path(digit, f, k, c, r) == p;
            assert(bit_of(col@[c], p));
        }
    }
}

/// The OR of the row words over a set of rows is the set's word.
proof fn lemma_sets_from_rows(digit: Seq<[(u8, u8); 4]>, f: int, k: int, row: [u64; 8], sets: Seq<u64>, base: int)
    requires
        digits_ok(digit),
        0 <= f < digit.len(),
        1 <= k <= 3,
        forall|c: int, p: int| 0 <= c < 8 && 0 <= p < 64 ==> #[trigger] bit_of(row@[c], p)
            == (c < pw(k) && exists|x: int| 0 <= x < pw(k) && #[trigger] path(digit, f, k, x, c) == p),
        forall|m: int, p: int| 0 <= m < pw(pw(k)) && 0 <= p < 64 ==> #[trigger] bit_of(sets[base + m], p)
            == exists|c: int| 0 <= c < pw(k) && bit_of(m as u64, c) && #[trigger] bit_of(row@[c], p),
        base == 276 * f + offset(k),
    ensures
        rows_ok(sets, digit, f, k),
{
    assert forall|m: int, p: int| 0 <= m < pw(pw(k)) && 0 <= p < 64 implies #[trigger] bit_of(sets[276 * f + offset(k) + m], p)
        == (p < pw4(k) && in_rows(digit, f, k, m as u64, p)) by {
        assert(bit_of(sets[base + m], p) == exists|c: int| 0 <= c < pw(k) && bit_of(m as u64, c) && #[trigger] bit_of(row@[c], p));
        if bit_of(sets[base + m], p) {
            let c = choose|c: int| 0 <= c < pw(k) && bit_of(m as u64, c) && #[trigger] bit_of(row@[c], p);
            assert(bit_of(row@[c], p));
            let x = choose|x: int| 0 <= x < pw(k) && #[trigger] path(digit, f, k, x, c) == p;
            lemma_descend_bounds(digit, f, 0, x, c, k);
            assert(path(digit, f, k, x, c) == p);
        }
        if p < pw4(k) && in_rows(digit, f, k, m as u64, p) {
            let (x, r) = choose|c: int, r: int| 0 <= c < pw(k) && 0 <= r < pw(k) && bit_of(m as u64, r) && #[trigger] path(digit, f, k, c, r) == p;
            assert(bit_of(row@[r], p));
        }
    }
}

} // verus!

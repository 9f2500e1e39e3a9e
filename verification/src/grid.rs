//! Two-dimensional free-space search on a grid of rows: a `w × h` block of
//! set cells, found with the same halving chain as the one-dimensional run
//! search, once vertically over the rows and once horizontally in each row.
use vstd::prelude::*;
use crate::bits::{run_at, Bits};
use crate::model::{bit_of, group_bits, low_mask};
use crate::word::Word;

verus! {

broadcast use group_bits;

/// The `w × h` block with its top-left cell at row `r`, column `c` lies in
/// the grid and all its cells are set.
pub open spec fn block_at(rows: Seq<u64>, r: int, c: int, w: int, h: int) -> bool {
    &&& 0 <= r
    &&& r + h <= rows.len()
    &&& 0 <= c
    &&& c + w <= 64
    &&& forall|rr: int, cc: int| r <= rr < r + h && c <= cc < c + w ==> #[trigger] bit_of(rows[rr], cc)
}

/// Column `c` is set in every row `r + d` for `d` in `offsets`, and those
/// rows exist.
spec fn all_rows(rows: Seq<u64>, offsets: Set<int>, r: int, c: int) -> bool {
    forall|d: int| #[trigger] offsets.contains(d) ==> r + d < rows.len() && bit_of(rows[r + d], c)
}

/// Offset `j` is some element of `offsets` plus something below `n`.
spec fn covered(offsets: Set<int>, n: int, j: int) -> bool {
    exists|d: int| #[trigger] offsets.contains(d) && 0 <= j - d < n
}

/// Writes into `out[r]` the columns `c` at which a `w × h` block of set
/// cells starts at `(r, c)`. Rows that cannot fit `h` more rows come out
/// zero. `w` in `1..=BITS`, `h >= 1`.
pub fn block_starts(rows: &[u64], w: u32, h: u32, out: &mut [u64])
    requires
        rows@.len() == old(out)@.len(),
        1 <= w <= 64,
        h >= 1,
    ensures
        final(out)@.len() == rows@.len(),
        forall|r: int, c: int|
            0 <= r < rows@.len() && 0 <= c < 64 ==> #[trigger] bit_of(final(out)@[r], c) == block_at(
                rows@,
                r,
                c,
                w as int,
                h as int,
            ),
{
    let len = rows.len();
    let mut i: usize = 0;
    while i < len
        invariant
            len == rows@.len(),
            len == out@.len(),
            i <= len,
            forall|j: int| 0 <= j < i ==> out@[j] == rows@[j],
        decreases len - i,
    {
        out[i] = rows[i];
        i = i + 1;
    }
    let mut n: usize = h as usize;
    let ghost mut offsets: Set<int> = Set::empty().insert(0int);
    proof {
        assert forall|j: int| 0 <= j < h implies #[trigger] covered(offsets, n as int, j) by {
            assert(offsets.contains(0int));
        }
        assert forall|r: int, c: int| 0 <= r < len && 0 <= c < 64 implies #[trigger] bit_of(out@[r], c) == all_rows(rows@, offsets, r, c) by {
            if bit_of(out@[r], c) {
                assert forall|d: int| #[trigger] offsets.contains(d) implies r + d < rows@.len() && bit_of(rows@[r + d], c) by {
                    assert(d == 0);
                }
            }
            if all_rows(rows@, offsets, r, c) {
                assert(offsets.contains(0int));
            }
        }
    }
    // Vertical halving chain: after this, out[r] is the AND of rows r..r+h.
    while n > 1
        invariant
            len == rows@.len(),
            len == out@.len(),
            1 <= n <= h,
            offsets.contains(0int),
            forall|d: int| #[trigger] offsets.contains(d) ==> 0 <= d && d + n <= h,
            forall|j: int| 0 <= j < h ==> #[trigger] covered(offsets, n as int, j),
            forall|r: int, c: int| 0 <= r < len && 0 <= c < 64 ==> #[trigger] bit_of(out@[r], c) == all_rows(rows@, offsets, r, c),
        decreases n,
    {
        let s = n >> 1;
        proof {
            assert(s == n / 2) by (nonlinear_arith)
                requires
                    s == n >> 1,
            {
                vstd::bits::lemma_u64_shr_is_div(n as u64, 1);
                vstd::arithmetic::power2::lemma2_to64();
            }
        }
        let ghost next: Set<int> = Set::new(|d: int| offsets.contains(d) || offsets.contains(d - s));
        let stop = if len >= s { len - s } else { 0 };
        let mut r: usize = 0;
        while r < stop
            invariant
                len == rows@.len(),
                len == out@.len(),
                1 <= s,
                stop == (if len >= s { len - s } else { 0 }),
                r <= stop,
                forall|d: int| #[trigger] next.contains(d) == (offsets.contains(d) || offsets.contains(d - s)),
                forall|q: int, c: int| 0 <= q < r && 0 <= c < 64 ==> #[trigger] bit_of(out@[q], c) == all_rows(rows@, next, q, c),
                forall|q: int, c: int| r <= q < len && 0 <= c < 64 ==> #[trigger] bit_of(out@[q], c) == all_rows(rows@, offsets, q, c),
            decreases stop - r,
        {
            let ghost before = out@;
            let v = out[r] & out[r + s];
            out[r] = v;
            proof {
                assert forall|c: int| 0 <= c < 64 implies #[trigger] bit_of(out@[r as int], c) == all_rows(rows@, next, r as int, c) by {
                    assert(bit_of(before[r as int], c) == all_rows(rows@, offsets, r as int, c));
                    assert(bit_of(before[r + s], c) == all_rows(rows@, offsets, r + s, c));
                    if all_rows(rows@, offsets, r as int, c) && all_rows(rows@, offsets, r + s, c) {
                        assert forall|d: int| #[trigger] next.contains(d) implies r + d < rows@.len() && bit_of(rows@[r + d], c) by {
                            if !offsets.contains(d) {
                                assert(offsets.contains(d - s));
                                assert(r + s + (d - s) == r + d);
                            }
                        }
                    }
                    if all_rows(rows@, next, r as int, c) {
                        assert forall|d: int| #[trigger] offsets.contains(d) implies r + s + d < rows@.len() && bit_of(rows@[r + s + d], c) by {
                            assert(next.contains(d + s));
                        }
                        assert forall|d: int| #[trigger] offsets.contains(d) implies r + d < rows@.len() && bit_of(rows@[r + d], c) by {
                            assert(next.contains(d));
                        }
                    }
                }
            }
            r = r + 1;
        }
        let mut q: usize = stop;
        while q < len
            invariant
                len == rows@.len(),
                len == out@.len(),
                1 <= s,
                stop == (if len >= s { len - s } else { 0 }),
                stop <= q <= len,
                offsets.contains(0int),
                forall|d: int| #[trigger] next.contains(d) == (offsets.contains(d) || offsets.contains(d - s)),
                forall|p: int, c: int| 0 <= p < q && 0 <= c < 64 ==> #[trigger] bit_of(out@[p], c) == all_rows(rows@, next, p, c),
            decreases len - q,
        {
            out[q] = 0;
            proof {
                assert forall|c: int| 0 <= c < 64 implies #[trigger] bit_of(out@[q as int], c) == all_rows(rows@, next, q as int, c) by {
                    assert(next.contains(s as int)) by {
                        assert(offsets.contains(s - s));
                    }
                }
            }
            q = q + 1;
        }
        proof {
            assert forall|d: int| #[trigger] next.contains(d) implies 0 <= d && d + (n - s) <= h by {
                if !offsets.contains(d) {
                    assert(offsets.contains(d - s));
                }
            }
            assert forall|j: int| 0 <= j < h implies #[trigger] covered(next, (n - s) as int, j) by {
                assert(covered(offsets, n as int, j));
                let d = choose|d: int| #[trigger] offsets.contains(d) && 0 <= j - d < n;
                if j - d < n - s {
                    assert(next.contains(d));
                } else {
                    assert(next.contains(d + s)) by {
                        assert(offsets.contains(d + s - s));
                    }
                }
            }
            offsets = next;
        }
        n = n - s;
    }
    if h as usize > len {
        let mut q: usize = 0;
        while q < len
            invariant
                len == rows@.len(),
                len == out@.len(),
                q <= len,
                forall|p: int, c: int| 0 <= p < q && 0 <= c < 64 ==> !#[trigger] bit_of(out@[p], c),
                forall|p: int, c: int| q <= p < len && 0 <= c < 64 ==> #[trigger] bit_of(out@[p], c) == all_rows(rows@, offsets, p, c),
            decreases len - q,
        {
            out[q] = 0;
            q = q + 1;
        }
        proof {
            assert forall|r: int, c: int| 0 <= r < len && 0 <= c < 64 implies #[trigger] bit_of(out@[r], c) == all_rows(rows@, offsets, r, c) by {
                if all_rows(rows@, offsets, r, c) {
                    assert(covered(offsets, 1, h - 1));
                    let d = choose|d: int| #[trigger] offsets.contains(d) && 0 <= (h - 1) - d < 1;
                }
            }
        }
    }
    // Horizontal chain per row.
    let mut q: usize = 0;
    while q < len
        invariant
            len == rows@.len(),
            len == out@.len(),
            q <= len,
            1 <= w <= 64,
            h >= 1,
            forall|d: int| #[trigger] offsets.contains(d) ==> 0 <= d && d + 1 <= h,
            forall|j: int| 0 <= j < h ==> #[trigger] covered(offsets, 1, j),
            forall|p: int, c: int| 0 <= p < q && 0 <= c < 64 ==> #[trigger] bit_of(out@[p], c) == block_at(rows@, p, c, w as int, h as int),
            forall|p: int, c: int| q <= p < len && 0 <= c < 64 ==> #[trigger] bit_of(out@[p], c) == all_rows(rows@, offsets, p, c),
        decreases len - q,
    {
        let ghost before = out@[q as int];
        proof {
            assert forall|c: int| 0 <= c < 64 implies #[trigger] bit_of(before, c) == all_rows(rows@, offsets, q as int, c) by {
                assert(bit_of(out@[q as int], c) == all_rows(rows@, offsets, q as int, c));
            }
        }
        let v = out[q].run_starts(w);
        out[q] = v;
        proof {
            assert forall|c: int| 0 <= c < 64 implies #[trigger] bit_of(out@[q as int], c) == block_at(rows@, q as int, c, w as int, h as int) by {
                assert(bit_of(v, c) == run_at(before, c, w as int));
                if run_at(before, c, w as int) {
                    assert(bit_of(before, c));
                    assert(all_rows(rows@, offsets, q as int, c));
                    assert(covered(offsets, 1, h - 1));
                    let d = choose|d: int| #[trigger] offsets.contains(d) && 0 <= (h - 1) - d < 1;
                    assert forall|rr: int, cc: int| q <= rr < q + h && c <= cc < c + w implies #[trigger] bit_of(rows@[rr], cc) by {
                        assert(bit_of(before, cc));
                        assert(all_rows(rows@, offsets, q as int, cc));
                        assert(covered(offsets, 1, rr - q));
                        let e = choose|e: int| #[trigger] offsets.contains(e) && 0 <= (rr - q) - e < 1;
                    }
                }
                if block_at(rows@, q as int, c, w as int, h as int) {
                    assert forall|b: int| c <= b < c + w implies #[trigger] bit_of(before, b) by {
                        assert(bit_of(before, b) == all_rows(rows@, offsets, q as int, b));
                        assert forall|d: int| #[trigger] offsets.contains(d) implies q + d < rows@.len() && bit_of(rows@[q + d], b) by {
                            assert(bit_of(rows@[q + d], b));
                        }
                    }
                }
            }
        }
        q = q + 1;
    }
}

/// First-fit (row-major) position `(row, col)` of a `w × h` block of set
/// cells, using `scratch` (as long as `rows`) as workspace.
pub fn find_block(rows: &[u64], w: u32, h: u32, scratch: &mut [u64]) -> (r: Option<(usize, u32)>)
    requires
        rows@.len() == old(scratch)@.len(),
        1 <= w <= 64,
        h >= 1,
    ensures
        final(scratch)@.len() == rows@.len(),
        match r {
            Some((row, col)) => {
                &&& block_at(rows@, row as int, col as int, w as int, h as int)
                &&& forall|r2: int, c2: int|
                    0 <= c2 < 64 && (r2 < row || (r2 == row && c2 < col)) ==> !#[trigger] block_at(
                        rows@,
                        r2,
                        c2,
                        w as int,
                        h as int,
                    )
            },
            None => forall|r2: int, c2: int| 0 <= c2 < 64 ==> !#[trigger] block_at(rows@, r2, c2, w as int, h as int),
        },
{
    block_starts(rows, w, h, scratch);
    let len = scratch.len();
    let mut q: usize = 0;
    while q < len
        invariant
            len == scratch@.len(),
            len == rows@.len(),
            q <= len,
            forall|p: int, c: int| 0 <= p < len && 0 <= c < 64 ==> #[trigger] bit_of(scratch@[p], c) == block_at(rows@, p, c, w as int, h as int),
            forall|p: int, c: int| p < q && 0 <= c < 64 ==> !#[trigger] block_at(rows@, p, c, w as int, h as int),
        decreases len - q,
    {
        match scratch[q].first_set() {
            Some(c) => {
                proof {
                    crate::model::lemma_tz(scratch@[q as int]);
                    assert forall|r2: int, c2: int| 0 <= c2 < 64 && (r2 < q || (r2 == q && c2 < c)) implies !#[trigger] block_at(rows@, r2, c2, w as int, h as int) by {
                        if r2 == q {
                            assert(!bit_of(scratch@[q as int], c2));
                        }
                    }
                }
                return Some((q, c));
            },
            None => {
                proof {
                    assert forall|c: int| 0 <= c < 64 implies !#[trigger] block_at(rows@, q as int, c, w as int, h as int) by {
                        assert(!bit_of(scratch@[q as int], c));
                    }
                }
            },
        }
        q = q + 1;
    }
    None
}

/// The block's columns in one row.
fn block_mask(col: u32, w: u32) -> (r: u64)
    requires
        col + w <= 64,
    ensures
        forall|i: int| #[trigger] bit_of(r, i) == (col <= i < col + w),
{
    if col >= 64 {
        return 0;
    }
    <u64 as Word>::low_ones(w) << col
}

/// Sets every cell of the `w × h` block at `(row, col)`, which lies inside
/// the grid.
pub fn fill_block(rows: &mut [u64], row: usize, col: u32, w: u32, h: u32)
    requires
        col + w <= 64,
        row + h <= old(rows)@.len(),
    ensures
        final(rows)@.len() == old(rows)@.len(),
        forall|r: int, i: int|
            0 <= r < old(rows)@.len() ==> #[trigger] bit_of(final(rows)@[r], i) == (bit_of(old(rows)@[r], i) || (row
                <= r < row + h && col <= i < col + w)),
{
    let mask = block_mask(col, w);
    let len = rows.len();
    let end = row + h as usize;
    let mut q: usize = row;
    while q < end
        invariant
            rows@.len() == old(rows)@.len(),
            end == row + h,
            end <= rows@.len(),
            row <= q <= end,
            forall|i: int| #[trigger] bit_of(mask, i) == (col <= i < col + w),
            forall|r: int, i: int|
                0 <= r < rows@.len() ==> #[trigger] bit_of(rows@[r], i) == (bit_of(old(rows)@[r], i) || (row
                    <= r < q && col <= i < col + w)),
        decreases end - q,
    {
        let v = rows[q] | mask;
        rows[q] = v;
        q = q + 1;
    }
}

/// Clears every cell of the `w × h` block at `(row, col)`, which lies
/// inside the grid.
pub fn clear_block(rows: &mut [u64], row: usize, col: u32, w: u32, h: u32)
    requires
        col + w <= 64,
        row + h <= old(rows)@.len(),
    ensures
        final(rows)@.len() == old(rows)@.len(),
        forall|r: int, i: int|
            0 <= r < old(rows)@.len() ==> #[trigger] bit_of(final(rows)@[r], i) == (bit_of(old(rows)@[r], i) && !(row
                <= r < row + h && col <= i < col + w)),
{
    let mask = block_mask(col, w);
    let len = rows.len();
    let end = row + h as usize;
    let mut q: usize = row;
    while q < end
        invariant
            rows@.len() == old(rows)@.len(),
            end == row + h,
            end <= rows@.len(),
            row <= q <= end,
            forall|i: int| #[trigger] bit_of(mask, i) == (col <= i < col + w),
            forall|r: int, i: int|
                0 <= r < rows@.len() ==> #[trigger] bit_of(rows@[r], i) == (bit_of(old(rows)@[r], i) && !(row
                    <= r < q && col <= i < col + w)),
        decreases end - q,
    {
        let v = rows[q] & !mask;
        rows[q] = v;
        q = q + 1;
    }
}

} // verus!

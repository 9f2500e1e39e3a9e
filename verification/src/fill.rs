//! The model of the Kogge–Stone fills: cells reachable from a set of cells
//! by steps of a fixed stride through a propagation mask.
use vstd::prelude::*;
use crate::model::{bit_of, group_bits};

verus! {

broadcast use group_bits;

/// Cell `i` is reachable from the set bits of `x` in at most `n` steps of
/// `step` (each from `i - step` to `i`), every step landing on a set bit of
/// `p`.
pub open spec fn reach(x: u64, p: u64, step: int, i: int, n: int) -> bool
    decreases n,
{
    if n <= 0 {
        bit_of(x, i)
    } else {
        bit_of(x, i) || (bit_of(p, i) && reach(x, p, step, i - step, n - 1))
    }
}

/// Cells `i, i - step, …`, `m` of them, are all set in `p`.
pub open spec fn run_back(p: u64, step: int, i: int, m: int) -> bool
    decreases m,
{
    if m <= 0 {
        true
    } else {
        bit_of(p, i) && run_back(p, step, i - step, m - 1)
    }
}

/// A run of `a + b` cells is a run of `a` and a run of `b` after it.
pub proof fn lemma_run_back_concat(p: u64, step: int, i: int, a: int, b: int)
    requires
        a >= 0,
        b >= 1,
    ensures
        run_back(p, step, i, a + b) == (run_back(p, step, i, a) && run_back(
            p,
            step,
            i - a * step,
            b,
        )),
    decreases a,
{
    if a > 0 {
        lemma_run_back_concat(p, step, i - step, a - 1, b);
        assert(i - step - (a - 1) * step == i - a * step) by (nonlinear_arith);
    }
}

/// Peeling the last `m` steps off a walk of at most `n + m`.
pub proof fn lemma_reach_peel(x: u64, p: u64, step: int, i: int, m: int, n: int)
    requires
        m >= 1,
        n >= 0,
    ensures
        reach(x, p, step, i, n + m) == (reach(x, p, step, i, m - 1) || (run_back(p, step, i, m)
            && reach(x, p, step, i - m * step, n))),
    decreases m,
{
    if m > 1 {
        lemma_reach_peel(x, p, step, i - step, m - 1, n);
        assert(i - step - (m - 1) * step == i - m * step) by (nonlinear_arith);
        assert(n + m - 1 == n + (m - 1));
    } else {
        assert(m * step == step) by (nonlinear_arith)
            requires
                m == 1,
        ;
        assert(run_back(p, step, i - step, 0));
        assert(run_back(p, step, i, 1) == bit_of(p, i));
        assert(reach(x, p, step, i, 0) == bit_of(x, i));
    }
}

/// Once a walk must have left the word, longer walks reach nothing more.
pub proof fn lemma_reach_enough(x: u64, p: u64, step: int, i: int, n: int)
    requires
        n >= 0,
        i - (n + 1) * step < 0 || i - (n + 1) * step >= 64,
    ensures
        reach(x, p, step, i, n + 1) == reach(x, p, step, i, n),
    decreases n,
{
    if n > 0 {
        assert((i - step) - n * step == i - (n + 1) * step) by (nonlinear_arith);
        lemma_reach_enough(x, p, step, i - step, n - 1);
    } else {
        assert(i - step == i - (n + 1) * step) by (nonlinear_arith)
            requires
                n == 0,
        ;
        assert(reach(x, p, step, i - step, 0) == bit_of(x, i - step));
    }
}

} // verus!

verus! {

/// Walks of any length from `n0` on reach the same cells, once `n0 + 1`
/// steps carry every cell out of the word.
pub proof fn lemma_reach_stable(x: u64, p: u64, step: int, i: int, n0: int, n: int)
    requires
        0 <= n0 <= n,
        0 <= i < 64,
        (step > 0 && (n0 + 1) * step > i) || (step < 0 && i - (n0 + 1) * step >= 64),
    ensures
        reach(x, p, step, i, n) == reach(x, p, step, i, n0),
    decreases n - n0,
{
    if n > n0 {
        lemma_reach_stable(x, p, step, i, n0, n - 1);
        assert((step > 0 && n * step > i) || (step < 0 && i - n * step >= 64)) by (nonlinear_arith)
            requires
                (step > 0 && (n0 + 1) * step > i) || (step < 0 && i - (n0 + 1) * step >= 64),
                n0 + 1 <= n,
        ;
        lemma_reach_enough(x, p, step, i, n - 1);
    }
}

/// Nothing outside the word is reached.
pub proof fn lemma_reach_outside(x: u64, p: u64, step: int, i: int, n: int)
    requires
        i < 0 || i >= 64,
    ensures
        !reach(x, p, step, i, n),
        n >= 1 ==> !run_back(p, step, i, n),
{
}


/// One more step reaches at least as far.
pub proof fn lemma_reach_mono(x: u64, p: u64, step: int, i: int, a: int, b: int)
    requires
        0 <= a <= b,
        reach(x, p, step, i, a),
    ensures
        reach(x, p, step, i, b),
    decreases b,
{
    if a < b {
        if a == b - 1 {
            lemma_reach_mono_one(x, p, step, i, a);
        } else {
            lemma_reach_mono(x, p, step, i, a, b - 1);
            lemma_reach_mono_one(x, p, step, i, b - 1);
        }
    }
}

proof fn lemma_reach_mono_one(x: u64, p: u64, step: int, i: int, n: int)
    requires
        0 <= n,
        reach(x, p, step, i, n),
    ensures
        reach(x, p, step, i, n + 1),
    decreases n,
{
    if n > 0 && !bit_of(x, i) {
        lemma_reach_mono_one(x, p, step, i - step, n - 1);
    }
}

/// One more step of the fill: a cell is reached in `n + 1` steps iff it
/// is reached in `n`, or its predecessor is and it propagates.
pub proof fn lemma_reach_step(x: u64, p: u64, step: int, i: int, n: int)
    requires
        0 <= n,
    ensures
        reach(x, p, step, i, n + 1) == (reach(x, p, step, i, n) || (bit_of(p, i) && reach(
            x,
            p,
            step,
            i - step,
            n,
        ))),
{
    if reach(x, p, step, i, n) {
        lemma_reach_mono_one(x, p, step, i, n);
    }
    if n > 0 && bit_of(p, i) && reach(x, p, step, i - step, n - 1) {
        lemma_reach_mono_one(x, p, step, i - step, n - 1);
    }
}

/// Reaching from what `m` steps reach is reaching in `n + m` steps.
pub proof fn lemma_reach_compose(x: u64, r: u64, p: u64, step: int, i: int, n: int, m: int)
    requires
        0 <= n,
        0 <= m,
        forall|j: int| 0 <= j < 64 ==> #[trigger] bit_of(r, j) == reach(x, p, step, j, m),
    ensures
        reach(r, p, step, i, n) == reach(x, p, step, i, n + m),
    decreases n,
{
    if i < 0 || i >= 64 {
        lemma_reach_outside(x, p, step, i, n + m);
        lemma_reach_outside(r, p, step, i, n);
    } else if n == 0 {
    } else {
        lemma_reach_compose(x, r, p, step, i - step, n - 1, m);
        if reach(x, p, step, i, m) {
            lemma_reach_mono(x, p, step, i, m, n + m);
        }
        if bit_of(x, i) {
            assert(reach(x, p, step, i, m));
        }
    }
}

/// With every cell propagating and stride one, the upward fill of `n`
/// steps reaches `i` iff a set bit lies in `i - n ..= i`.
pub proof fn lemma_reach_ones_up(x: u64, i: int, n: int)
    requires
        0 <= n,
        i < 64,
    ensures
        reach(x, 0xffff_ffff_ffff_ffffu64, 1, i, n) == exists|j: int| #![trigger bit_of(x, j)] i - n <= j <= i && bit_of(x, j),
    decreases n,
{
    if n > 0 {
        lemma_reach_ones_up(x, i - 1, n - 1);
        if exists|j: int| #![trigger bit_of(x, j)] i - n <= j <= i && bit_of(x, j) {
            let j = choose|j: int| #![trigger bit_of(x, j)] i - n <= j <= i && bit_of(x, j);
            if j < i {
                assert(bit_of(0xffff_ffff_ffff_ffffu64, i));
            }
        }
    }
}

/// With every cell propagating and stride one, the downward fill of `n`
/// steps reaches `i` iff a set bit lies in `i ..= i + n`.
pub proof fn lemma_reach_ones_down(x: u64, i: int, n: int)
    requires
        0 <= n,
        0 <= i,
    ensures
        reach(x, 0xffff_ffff_ffff_ffffu64, -1, i, n) == exists|j: int| #![trigger bit_of(x, j)] i <= j <= i + n && bit_of(x, j),
    decreases n,
{
    if n > 0 {
        lemma_reach_ones_down(x, i + 1, n - 1);
        if exists|j: int| #![trigger bit_of(x, j)] i <= j <= i + n && bit_of(x, j) {
            let j = choose|j: int| #![trigger bit_of(x, j)] i <= j <= i + n && bit_of(x, j);
            if j > i {
                assert(bit_of(0xffff_ffff_ffff_ffffu64, i));
            }
        }
    }
}

} // verus!

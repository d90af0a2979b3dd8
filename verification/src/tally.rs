//! Sums of a weight over the 81 cells, row by row, and the facts about such
//! sums that the conflict check and the solver rest on.

use vstd::prelude::*;
use crate::field::{Coords, in_grid, at};

verus! {

/// The sum of `w` over the first `n` cells of row `y`.
pub open spec fn row_tally(w: spec_fn(Coords) -> int, y: int, n: int) -> int
    decreases n,
{
    if n <= 0 {
        0
    } else {
        row_tally(w, y, n - 1) + w(at(n - 1, y))
    }
}

/// The sum of `w` over the first `n` rows.
pub open spec fn rows_tally(w: spec_fn(Coords) -> int, n: int) -> int
    decreases n,
{
    if n <= 0 {
        0
    } else {
        rows_tally(w, n - 1) + row_tally(w, n - 1, 9)
    }
}

/// The sum of `w` over all 81 cells.
pub open spec fn tally(w: spec_fn(Coords) -> int) -> int {
    rows_tally(w, 9)
}

proof fn lemma_row_same(w1: spec_fn(Coords) -> int, w2: spec_fn(Coords) -> int, y: int, n: int)
    requires
        0 <= y < 9,
        n <= 9,
        forall|p: Coords| in_grid(p) ==> #[trigger] w1(p) == w2(p),
    ensures
        row_tally(w1, y, n) == row_tally(w2, y, n),
    decreases n,
{
    if n > 0 {
        lemma_row_same(w1, w2, y, n - 1);
        assert(in_grid(at(n - 1, y)));
    }
}

proof fn lemma_rows_same(w1: spec_fn(Coords) -> int, w2: spec_fn(Coords) -> int, n: int)
    requires
        n <= 9,
        forall|p: Coords| in_grid(p) ==> #[trigger] w1(p) == w2(p),
    ensures
        rows_tally(w1, n) == rows_tally(w2, n),
    decreases n,
{
    if n > 0 {
        lemma_rows_same(w1, w2, n - 1);
        lemma_row_same(w1, w2, n - 1, 9);
    }
}

/// Weights that agree on every cell have the same sum.
pub proof fn lemma_tally_same(w1: spec_fn(Coords) -> int, w2: spec_fn(Coords) -> int)
    requires
        forall|p: Coords| in_grid(p) ==> #[trigger] w1(p) == w2(p),
    ensures
        tally(w1) == tally(w2),
{
    lemma_rows_same(w1, w2, 9);
}

proof fn lemma_row_differ(
    w1: spec_fn(Coords) -> int,
    w2: spec_fn(Coords) -> int,
    c: Coords,
    y: int,
    n: int,
)
    requires
        0 <= y < 9,
        0 <= n <= 9,
        in_grid(c),
        forall|p: Coords| in_grid(p) && p != c ==> #[trigger] w1(p) == w2(p),
    ensures
        row_tally(w1, y, n) - row_tally(w2, y, n) == if y == c.y && c.x < n {
            w1(c) - w2(c)
        } else {
            0
        },
    decreases n,
{
    if n > 0 {
        lemma_row_differ(w1, w2, c, y, n - 1);
        let p = at(n - 1, y);
        assert(in_grid(p));
        assert(p == c <==> (y == c.y && c.x == n - 1));
    }
}

proof fn lemma_rows_differ(
    w1: spec_fn(Coords) -> int,
    w2: spec_fn(Coords) -> int,
    c: Coords,
    n: int,
)
    requires
        0 <= n <= 9,
        in_grid(c),
        forall|p: Coords| in_grid(p) && p != c ==> #[trigger] w1(p) == w2(p),
    ensures
        rows_tally(w1, n) - rows_tally(w2, n) == if c.y < n {
            w1(c) - w2(c)
        } else {
            0
        },
    decreases n,
{
    if n > 0 {
        lemma_rows_differ(w1, w2, c, n - 1);
        lemma_row_differ(w1, w2, c, n - 1, 9);
    }
}

/// Weights that agree everywhere but at `c` have sums that differ by what
/// they differ by at `c`.
pub proof fn lemma_tally_differ_at(
    w1: spec_fn(Coords) -> int,
    w2: spec_fn(Coords) -> int,
    c: Coords,
)
    requires
        in_grid(c),
        forall|p: Coords| in_grid(p) && p != c ==> #[trigger] w1(p) == w2(p),
    ensures
        tally(w1) - tally(w2) == w1(c) - w2(c),
{
    lemma_rows_differ(w1, w2, c, 9);
}

proof fn lemma_row_split(
    w: spec_fn(Coords) -> int,
    w1: spec_fn(Coords) -> int,
    w2: spec_fn(Coords) -> int,
    y: int,
    n: int,
)
    requires
        0 <= y < 9,
        n <= 9,
        forall|p: Coords| in_grid(p) ==> #[trigger] w(p) == w1(p) + w2(p),
    ensures
        row_tally(w, y, n) == row_tally(w1, y, n) + row_tally(w2, y, n),
    decreases n,
{
    if n > 0 {
        lemma_row_split(w, w1, w2, y, n - 1);
        assert(in_grid(at(n - 1, y)));
    }
}

proof fn lemma_rows_split(
    w: spec_fn(Coords) -> int,
    w1: spec_fn(Coords) -> int,
    w2: spec_fn(Coords) -> int,
    n: int,
)
    requires
        n <= 9,
        forall|p: Coords| in_grid(p) ==> #[trigger] w(p) == w1(p) + w2(p),
    ensures
        rows_tally(w, n) == rows_tally(w1, n) + rows_tally(w2, n),
    decreases n,
{
    if n > 0 {
        lemma_rows_split(w, w1, w2, n - 1);
        lemma_row_split(w, w1, w2, n - 1, 9);
    }
}

/// The sum of a weight that is the sum of two others on every cell is the
/// sum of their sums.
pub proof fn lemma_tally_split(
    w: spec_fn(Coords) -> int,
    w1: spec_fn(Coords) -> int,
    w2: spec_fn(Coords) -> int,
)
    requires
        forall|p: Coords| in_grid(p) ==> #[trigger] w(p) == w1(p) + w2(p),
    ensures
        tally(w) == tally(w1) + tally(w2),
{
    lemma_rows_split(w, w1, w2, 9);
}

/// A partial sum of a weight between `lo` and `hi` lies between that many
/// times `lo` and `hi`.
pub proof fn lemma_row_between(w: spec_fn(Coords) -> int, lo: int, hi: int, y: int, n: int)
    requires
        0 <= y < 9,
        0 <= n <= 9,
        forall|p: Coords| in_grid(p) ==> lo <= #[trigger] w(p) <= hi,
    ensures
        n * lo <= row_tally(w, y, n) <= n * hi,
    decreases n,
{
    if n > 0 {
        lemma_row_between(w, lo, hi, y, n - 1);
        assert(in_grid(at(n - 1, y)));
        assert(n * lo == (n - 1) * lo + lo) by (nonlinear_arith);
        assert(n * hi == (n - 1) * hi + hi) by (nonlinear_arith);
    } else {
        assert(n * lo == 0 && n * hi == 0) by (nonlinear_arith)
            requires
                n == 0,
        ;
    }
}

/// The same for whole rows: the first `n` rows hold `9 * n` cells.
pub proof fn lemma_rows_between(w: spec_fn(Coords) -> int, lo: int, hi: int, n: int)
    requires
        0 <= n <= 9,
        forall|p: Coords| in_grid(p) ==> lo <= #[trigger] w(p) <= hi,
    ensures
        9 * n * lo <= rows_tally(w, n) <= 9 * n * hi,
    decreases n,
{
    if n > 0 {
        lemma_rows_between(w, lo, hi, n - 1);
        lemma_row_between(w, lo, hi, n - 1, 9);
        assert(9 * n * lo == 9 * (n - 1) * lo + 9 * lo) by (nonlinear_arith);
        assert(9 * n * hi == 9 * (n - 1) * hi + 9 * hi) by (nonlinear_arith);
    } else {
        assert(9 * n * lo == 0 && 9 * n * hi == 0) by (nonlinear_arith)
            requires
                n == 0,
        ;
    }
}

/// The sum over all cells of a weight between `lo` and `hi` lies between
/// `81 * lo` and `81 * hi`.
pub proof fn lemma_tally_between(w: spec_fn(Coords) -> int, lo: int, hi: int)
    requires
        forall|p: Coords| in_grid(p) ==> lo <= #[trigger] w(p) <= hi,
    ensures
        81 * lo <= tally(w) <= 81 * hi,
{
    lemma_rows_between(w, lo, hi, 9);
}

proof fn lemma_row_witness(w: spec_fn(Coords) -> int, y: int, n: int) -> (p: Coords)
    requires
        0 <= y < 9,
        0 <= n <= 9,
        row_tally(w, y, n) > 0,
    ensures
        in_grid(p),
        w(p) > 0,
    decreases n,
{
    if w(at(n - 1, y)) > 0 {
        at(n - 1, y)
    } else {
        lemma_row_witness(w, y, n - 1)
    }
}

proof fn lemma_rows_witness(w: spec_fn(Coords) -> int, n: int) -> (p: Coords)
    requires
        0 <= n <= 9,
        rows_tally(w, n) > 0,
    ensures
        in_grid(p),
        w(p) > 0,
    decreases n,
{
    if row_tally(w, n - 1, 9) > 0 {
        lemma_row_witness(w, n - 1, 9)
    } else {
        lemma_rows_witness(w, n - 1)
    }
}

/// A positive sum has a cell of positive weight.
pub proof fn lemma_tally_witness(w: spec_fn(Coords) -> int) -> (p: Coords)
    requires
        tally(w) > 0,
    ensures
        in_grid(p),
        w(p) > 0,
{
    lemma_rows_witness(w, 9)
}

} // verus!

//! What it means to solve a puzzle, and why backtracking with the conflict
//! check finds exactly the solutions.

use vstd::prelude::*;
use crate::field::{Coords, Cell, Grid, Board, in_grid, cell_at, digit_at, is_digit, replaced, lemma_same_cells};
use crate::tally::{tally, lemma_tally_same, lemma_tally_differ_at, lemma_tally_split, lemma_tally_between, lemma_tally_witness};
use crate::digits::{counting, adding, lemma_fill_nothing, lemma_distinct_digits_total};

verus! {

impl Board {
    /// The same cages around another grid.
    pub open spec fn on(self, s: Grid) -> Board {
        Board { cells: s, cages: self.cages }
    }

    /// The cell of `s` at `p` fills in the cell of `self` there: a given
    /// stays a given, a digit stays, and an empty cell has a digit from 1 to
    /// 9 that is legal in `s`.
    pub open spec fn filled_by(self, s: Grid, p: Coords) -> bool {
        &&& cell_at(s, p).fixed == cell_at(self.cells, p).fixed
        &&& match self.digit(p) {
            Some(d) => digit_at(s, p) == Some(d),
            None => is_digit(digit_at(s, p)) && self.on(s).legal(p, digit_at(s, p)->0),
        }
    }

    /// `s` is a solution of `self`: it fills in every cell.
    pub open spec fn solved_by(self, s: Grid) -> bool {
        forall|p: Coords| in_grid(p) ==> #[trigger] self.filled_by(s, p)
    }

    /// There is a solution.
    pub open spec fn solvable(self) -> bool {
        exists|s: Grid| #[trigger] self.solved_by(s)
    }

    /// There is exactly one solution.
    pub open spec fn has_one_solution(self) -> bool {
        exists|s: Grid| #[trigger]
            self.solved_by(s) && forall|t: Grid| #[trigger] self.solved_by(t) ==> t == s
    }

    /// The cells of region `k`.
    pub open spec fn cage(self, k: u32) -> spec_fn(Coords) -> bool {
        |p: Coords| self.cages.id(p) == k
    }

    /// The sum of all digits in region `k`.
    pub open spec fn cage_sum(self, k: u32) -> int {
        tally(adding(self.cage(k), self.values()))
    }
}

/// A full board has one solution: itself.
pub proof fn lemma_full_board(b: Board, s: Grid)
    requires
        b.complete(),
    ensures
        b.solved_by(b.cells),
        b.solved_by(s) ==> s == b.cells,
{
    assert forall|p: Coords| in_grid(p) implies #[trigger] b.filled_by(b.cells, p) by {
        assert(b.digit(p) is Some);
    }
    if b.solved_by(s) {
        assert forall|p: Coords| in_grid(p) implies #[trigger] cell_at(s, p) == cell_at(
            b.cells,
            p,
        ) by {
            assert(b.filled_by(s, p));
            assert(b.digit(p) is Some);
        }
        lemma_same_cells(s, b.cells);
    }
}

/// Putting a digit into an empty cell leaves one empty cell fewer.
pub proof fn lemma_one_blank_less(b: Board, c: Coords, b2: Board)
    requires
        in_grid(c),
        b.digit(c) is None,
        b2.digit(c) is Some,
        forall|p: Coords| in_grid(p) && p != c ==> #[trigger] cell_at(b2.cells, p) == cell_at(
            b.cells,
            p,
        ),
    ensures
        b2.blanks() == b.blanks() - 1,
        b.blanks() >= 1,
{
    let w = counting(b.vacant());
    let w2 = counting(b2.vacant());
    assert forall|p: Coords| in_grid(p) && p != c implies #[trigger] w(p) == w2(p) by {
        assert(cell_at(b2.cells, p) == cell_at(b.cells, p));
    }
    lemma_tally_differ_at(w, w2, c);
    lemma_tally_between(w2, 0, 1);
}

/// In a complete grid, the digits of the other cells of a cage and the
/// digit of the cell itself make up the cage's sum.
pub proof fn lemma_rest_and_self(b: Board, c: Coords)
    requires
        in_grid(c),
    ensures
        b.rest_sum(c) + b.values()(c) == b.cage_sum(b.cages.id(c)),
{
    let k = b.cages.id(c);
    let w_all = adding(b.cage(k), b.values());
    let w_rest = adding(b.mates(c), b.values());
    assert forall|p: Coords| in_grid(p) && p != c implies #[trigger] w_all(p) == w_rest(p) by {}
    lemma_tally_differ_at(w_all, w_rest, c);
}

/// A weight that is nowhere negative and sums to nothing is nothing on
/// every cell.
proof fn lemma_nothing_anywhere(w: spec_fn(Coords) -> int, hi: int, p: Coords)
    requires
        forall|q: Coords| in_grid(q) ==> 0 <= #[trigger] w(q) <= hi,
        tally(w) == 0,
        in_grid(p),
    ensures
        w(p) == 0,
{
    let z = |q: Coords|
        if q == p {
            0int
        } else {
            w(q)
        };
    lemma_tally_differ_at(w, z, p);
    lemma_tally_between(z, 0, hi);
}

/// In a complete grid no cage has a blank.
pub proof fn lemma_complete_no_blanks(b: Board, c: Coords)
    requires
        b.complete(),
    ensures
        b.rest_blanks(c) == 0,
{
    let w = counting(b.blank_mates(c));
    assert forall|p: Coords| in_grid(p) implies 0 <= #[trigger] w(p) <= 0 by {
        assert(b.digit(p) is Some);
    }
    lemma_tally_between(w, 0, 0);
}

/// A solution is complete.
proof fn lemma_solution_complete(b: Board, s: Grid)
    requires
        b.solved_by(s),
    ensures
        b.on(s).complete(),
{
    assert forall|p: Coords| in_grid(p) implies (#[trigger] b.on(s).digit(p)) is Some by {
        assert(b.filled_by(s, p));
    }
}

/// The conflict check prunes nothing that a solution needs: where a solution has
/// `d` in a cell that is still empty, `d` is legal there now.
pub proof fn lemma_solution_digit_is_legal(b: Board, s: Grid, c: Coords, d: u8)
    requires
        b.cages.consistent(),
        b.solved_by(s),
        in_grid(c),
        b.digit(c) is None,
        digit_at(s, c) == Some(d),
    ensures
        b.legal(c, d),
{
    let bs = b.on(s);
    assert(b.filled_by(s, c));
    assert(bs.legal(c, d));
    assert forall|p: Coords| !#[trigger] b.row_hit(c, d, p) by {
        if b.row_hit(c, d, p) {
            assert(b.filled_by(s, p));
            assert(bs.row_hit(c, d, p));
        }
    }
    assert forall|p: Coords| !#[trigger] b.col_hit(c, d, p) by {
        if b.col_hit(c, d, p) {
            assert(b.filled_by(s, p));
            assert(bs.col_hit(c, d, p));
        }
    }
    assert forall|p: Coords| !#[trigger] b.box_hit(c, d, p) by {
        if b.box_hit(c, d, p) {
            assert(b.filled_by(s, p));
            assert(bs.box_hit(c, d, p));
        }
    }
    if b.cages.active() {
        assert forall|p: Coords| !#[trigger] b.cage_hit(c, d, p) by {
            if b.cage_hit(c, d, p) {
                assert(b.filled_by(s, p));
                assert(bs.cage_hit(c, d, p));
            }
        }
        lemma_solution_complete(b, s);
        lemma_complete_no_blanks(bs, c);
        lemma_fill_nothing();
        assert(bs.within_bounds(c, d));
        assert(bs.rest_sum(c) + d == bs.target(c));
        // The digits of the solution in the cage, split into those that were
        // there already and those that went into the blanks.
        let sel = b.blank_mates(c);
        let f = bs.values();
        let w_s = adding(bs.mates(c), bs.values());
        let w_b = adding(b.mates(c), b.values());
        let w_x = adding(sel, f);
        assert forall|p: Coords| in_grid(p) implies #[trigger] w_s(p) == w_b(p) + w_x(p) by {
            assert(b.filled_by(s, p));
        }
        lemma_tally_split(w_s, w_b, w_x);
        assert forall|p: Coords| in_grid(p) && #[trigger] sel(p) implies 1 <= f(p) <= 9 by {
            assert(b.filled_by(s, p));
        }
        assert forall|p: Coords, q: Coords|
            in_grid(p) && in_grid(q) && #[trigger] sel(p) && #[trigger] sel(q) && p != q implies f(
            p,
        ) != f(q) by {
            assert(b.filled_by(s, p));
            assert(b.filled_by(s, q));
            let dp = digit_at(s, p)->0;
            assert(bs.legal(p, dp));
            assert(bs.mate(p, q));
            assert(!bs.cage_hit(p, dp, q));
        }
        lemma_distinct_digits_total(sel, f);
    }
}

/// Placing a legal digit loses no ground: what solves the board with the
/// digit in place solves the board without it. Together with the converse,
/// which needs no proof beyond the definitions, the solutions of the board
/// with `d` at `c` are the solutions of the board that have `d` at `c`.
pub proof fn lemma_placement(b: Board, c: Coords, d: u8, b2: Board, s: Grid)
    requires
        b.cages.consistent(),
        in_grid(c),
        b.digit(c) is None,
        1 <= d <= 9,
        b.legal(c, d),
        b2.cages == b.cages,
        replaced(b.cells, c, Cell { digit: Some(d), fixed: cell_at(b.cells, c).fixed }, b2.cells),
    ensures
        b2.solved_by(s) <==> b.solved_by(s) && digit_at(s, c) == Some(d),
{
    let bs = b.on(s);
    assert(b2.on(s) == bs);
    if b.solved_by(s) && digit_at(s, c) == Some(d) {
        assert forall|p: Coords| in_grid(p) implies #[trigger] b2.filled_by(s, p) by {
            assert(b.filled_by(s, p));
            if p != c {
                assert(cell_at(b2.cells, p) == cell_at(b.cells, p));
            }
        }
    }
    if b2.solved_by(s) {
        assert(b2.filled_by(s, c));
        assert(digit_at(s, c) == Some(d));
        assert forall|p: Coords| in_grid(p) && p != c implies #[trigger] b.filled_by(s, p) by {
            assert(b2.filled_by(s, p));
            assert(cell_at(b2.cells, p) == cell_at(b.cells, p));
        }
        // What is left: `d` is legal at `c` in the solution.
        assert forall|q: Coords| !#[trigger] bs.row_hit(c, d, q) by {
            if bs.row_hit(c, d, q) {
                assert(b.filled_by(s, q));
                if b.digit(q) is Some {
                    assert(b.row_hit(c, d, q));
                } else {
                    assert(bs.legal(q, d));
                    assert(bs.row_hit(q, d, c));
                }
            }
        }
        assert forall|q: Coords| !#[trigger] bs.col_hit(c, d, q) by {
            if bs.col_hit(c, d, q) {
                assert(b.filled_by(s, q));
                if b.digit(q) is Some {
                    assert(b.col_hit(c, d, q));
                } else {
                    assert(bs.legal(q, d));
                    assert(bs.col_hit(q, d, c));
                }
            }
        }
        assert forall|q: Coords| !#[trigger] bs.box_hit(c, d, q) by {
            if bs.box_hit(c, d, q) {
                assert(b.filled_by(s, q));
                if b.digit(q) is Some {
                    assert(b.box_hit(c, d, q));
                } else {
                    assert(bs.legal(q, d));
                    assert(bs.box_hit(q, d, c));
                }
            }
        }
        if b.cages.active() {
            assert forall|q: Coords| !#[trigger] bs.cage_hit(c, d, q) by {
                if bs.cage_hit(c, d, q) {
                    assert(b.filled_by(s, q));
                    if b.digit(q) is Some {
                        assert(b.cage_hit(c, d, q));
                    } else {
                        assert(bs.legal(q, d));
                        assert(bs.cage_hit(q, d, c));
                    }
                }
            }
            lemma_solution_complete(b2, s);
            lemma_complete_no_blanks(bs, c);
            lemma_fill_nothing();
            if b.rest_blanks(c) > 0 {
                // A cell of the cage that the search has yet to fill was
                // checked against the same sum.
                let q = lemma_tally_witness(counting(b.blank_mates(c)));
                assert(b.filled_by(s, q));
                let dq = digit_at(s, q)->0;
                assert(bs.legal(q, dq));
                lemma_complete_no_blanks(bs, q);
                assert(bs.within_bounds(q, dq));
                lemma_rest_and_self(bs, q);
                lemma_rest_and_self(bs, c);
            } else {
                // Every other cell of the cage was filled already.
                let w_s = adding(bs.mates(c), bs.values());
                let w_b = adding(b.mates(c), b.values());
                let w_o = counting(b.blank_mates(c));
                assert forall|p: Coords| in_grid(p) implies 0 <= #[trigger] w_o(p) <= 1 by {}
                lemma_tally_between(w_o, 0, 1);
                assert forall|p: Coords| in_grid(p) implies #[trigger] w_s(p) == w_b(p) by {
                    lemma_nothing_anywhere(w_o, 1, p);
                    if p != c {
                        assert(b.filled_by(s, p));
                    }
                }
                lemma_tally_same(w_s, w_b);
                assert(b.within_bounds(c, d));
            }
            assert(bs.within_bounds(c, d));
        }
        assert(bs.legal(c, d));
        assert(b.filled_by(s, c));
    }
}

} // verus!

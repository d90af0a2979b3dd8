//! The generators: a classic puzzle carved out of a full grid, and a cage
//! puzzle grown by merging regions, each with exactly one solution.

use vstd::prelude::*;
use crate::field::{Coords, Cell, Field, Grid, Board, in_grid, cell_at, digit_at, is_digit, comes_before, lemma_same_cells, lemma_with_cell};
use crate::regions::{Regions, Cages, lemma_border_exists, lemma_border_touches, lemma_singletons_contiguous, lemma_join_keeps_contiguous, lemma_join_keeps_partition};
use crate::tally::{lemma_tally_same, lemma_tally_split, lemma_tally_between, lemma_tally_differ_at};
use crate::digits::{counting, adding, lemma_fill_nothing, lemma_distinct_digits_total};
use crate::completion::{lemma_full_board, lemma_one_blank_less, lemma_rest_and_self, lemma_complete_no_blanks};
use crate::solver::search_size;
use crate::seed::lemma_seeded_board_solvable;
use crate::rng::random_in;

verus! {

/// How many grids the generators let one search visit before they give it
/// up and count the attempt as failed.
pub const SEARCH_ALLOWANCE: u64 = 100_000;

/// An empty cell that is not a given.
pub open spec fn blank_cell() -> Cell {
    Cell { digit: None, fixed: false }
}

impl Board {
    /// Every cell is empty and not a given.
    pub open spec fn blank(self) -> bool {
        forall|p: Coords| in_grid(p) ==> #[trigger] cell_at(self.cells, p) == blank_cell()
    }

    /// The grid is `key` with some cells emptied; no cell is a given.
    pub open spec fn carved_from(self, key: Grid) -> bool {
        forall|p: Coords|
            in_grid(p) ==> !cell_at(key, p).fixed && (#[trigger] cell_at(self.cells, p) == cell_at(
                key,
                p,
            ) || cell_at(self.cells, p) == blank_cell())
    }

    /// The board once the regions of `a` and `b` have been merged.
    pub open spec fn after_merge(self, a: Coords, b: Coords) -> Board {
        Board { cells: self.cells, cages: self.cages.merged(self.cages.id(a), self.cages.id(b)) }
    }

    /// `key` solves the puzzle and nothing else does.
    pub open spec fn solved_only_by(self, key: Grid) -> bool {
        self.solved_by(key) && forall|t: Grid| #[trigger] self.solved_by(t) ==> t == key
    }

    /// The cages fit `key`: each region's sum is what `key` holds in its
    /// cells, and no region holds a digit of `key` twice.
    pub open spec fn cages_match(self, key: Grid) -> bool {
        &&& forall|p: Coords|
            in_grid(p) ==> self.cages.sums[#[trigger] self.cages.id(p)] == self.on(key).cage_sum(
                self.cages.id(p),
            )
        &&& forall|p: Coords, q: Coords|
            #![trigger self.cages.id(p), self.cages.id(q)]
            in_grid(p) && in_grid(q) && p != q && self.cages.id(p) == self.cages.id(q) ==> digit_at(
                key,
                p,
            ) != digit_at(key, q)
    }
}

/// Whether a grid is sound does not depend on the cages around it.
pub proof fn lemma_sound_whatever_cages(b1: Board, b2: Board)
    requires
        b1.cells == b2.cells,
        b1.sound(),
    ensures
        b2.sound(),
{
    assert forall|p: Coords| in_grid(p) implies is_digit(#[trigger] b2.digit(p)) && b2.unopposed(
        p,
        b2.digit(p)->0,
    ) by {
        let d = b1.digit(p)->0;
        assert(is_digit(b1.digit(p)) && b1.unopposed(p, d));
        assert forall|q: Coords| !#[trigger] b2.row_hit(p, d, q) by {
            assert(!b1.row_hit(p, d, q));
        }
        assert forall|q: Coords| !#[trigger] b2.col_hit(p, d, q) by {
            assert(!b1.col_hit(p, d, q));
        }
        assert forall|q: Coords| !#[trigger] b2.box_hit(p, d, q) by {
            assert(!b1.box_hit(p, d, q));
        }
    }
}

/// With no cages in force, a puzzle carved out of a sound grid is solved by
/// that grid.
pub proof fn lemma_carved_key_solves(b: Board, key: Grid)
    requires
        !b.cages.active(),
        b.carved_from(key),
        b.on(key).sound(),
    ensures
        b.solved_by(key),
{
    let bk = b.on(key);
    assert forall|p: Coords| in_grid(p) implies #[trigger] b.filled_by(key, p) by {
        assert(cell_at(b.cells, p) == cell_at(key, p) || cell_at(b.cells, p) == blank_cell());
        assert(is_digit(bk.digit(p)) && bk.unopposed(p, bk.digit(p)->0));
    }
}

/// An empty grid whose cages fit a sound grid is solved by that grid.
pub proof fn lemma_cages_fit(b: Board, key: Grid)
    requires
        b.cages.active(),
        b.blank(),
        b.on(key).sound(),
        b.cages_match(key),
        forall|p: Coords| in_grid(p) ==> !(#[trigger] cell_at(key, p)).fixed,
    ensures
        b.solved_by(key),
{
    let bk = b.on(key);
    assert(bk.complete()) by {
        assert forall|p: Coords| in_grid(p) implies (#[trigger] bk.digit(p)) is Some by {
            assert(is_digit(bk.digit(p)));
        }
    }
    assert forall|p: Coords| in_grid(p) implies #[trigger] b.filled_by(key, p) by {
        assert(cell_at(b.cells, p) == blank_cell());
        assert(!cell_at(key, p).fixed);
        let d = bk.digit(p)->0;
        assert(is_digit(bk.digit(p)) && bk.unopposed(p, d));
        assert forall|q: Coords| !#[trigger] bk.cage_hit(p, d, q) by {
            if bk.cage_hit(p, d, q) {
                assert(b.cages.id(p) == b.cages.id(q));
            }
        }
        lemma_complete_no_blanks(bk, p);
        lemma_rest_and_self(bk, p);
        assert(b.cages.sums[b.cages.id(p)] == bk.cage_sum(b.cages.id(p)));
        lemma_fill_nothing();
        assert(bk.within_bounds(p, d));
    }
}

/// One region per cell, each summing to the digit of `key` there, fits
/// `key`.
pub proof fn lemma_singletons_match(b: Board, key: Grid)
    requires
        forall|p: Coords| in_grid(p) ==> #[trigger] b.cages.id(p) == 9 * p.y + p.x,
        forall|p: Coords|
            in_grid(p) ==> b.cages.sums[#[trigger] b.cages.id(p)] == digit_at(key, p)->0,
        forall|p: Coords| in_grid(p) ==> (#[trigger] digit_at(key, p)) is Some,
    ensures
        b.cages_match(key),
{
    let bk = b.on(key);
    assert forall|p: Coords| in_grid(p) implies b.cages.sums[#[trigger] b.cages.id(p)]
        == bk.cage_sum(b.cages.id(p)) by {
        let w = adding(bk.cage(b.cages.id(p)), bk.values());
        let z = |q: Coords|
            if q == p {
                0int
            } else {
                w(q)
            };
        assert forall|q: Coords| in_grid(q) implies 0 <= #[trigger] z(q) <= 0 by {
            assert(b.cages.id(q) == 9 * q.y + q.x);
        }
        lemma_tally_between(z, 0, 0);
        lemma_tally_differ_at(w, z, p);
        assert(digit_at(key, p) is Some);
    }
    assert forall|p: Coords, q: Coords|
        #![trigger b.cages.id(p), b.cages.id(q)]
        in_grid(p) && in_grid(q) && p != q && b.cages.id(p) == b.cages.id(q) implies digit_at(
        key,
        p,
    ) != digit_at(key, q) by {}
}

/// With one region per cell, each summing to the digit of `key` there, only
/// `key` solves the empty grid.
pub proof fn lemma_singletons_pin(b: Board, key: Grid, t: Grid)
    requires
        b.cages.active(),
        b.blank(),
        forall|p: Coords| in_grid(p) ==> #[trigger] b.cages.id(p) == 9 * p.y + p.x,
        forall|p: Coords|
            in_grid(p) ==> b.cages.sums[#[trigger] b.cages.id(p)] == digit_at(key, p)->0,
        forall|p: Coords|
            in_grid(p) ==> !(#[trigger] cell_at(key, p)).fixed && digit_at(key, p) is Some,
        b.solved_by(t),
    ensures
        t == key,
{
    let bt = b.on(t);
    assert forall|p: Coords| in_grid(p) implies #[trigger] cell_at(t, p) == cell_at(key, p) by {
        assert(b.filled_by(t, p));
        assert(cell_at(b.cells, p) == blank_cell());
        let d = digit_at(t, p)->0;
        assert(bt.legal(p, d));
        let ws = adding(bt.mates(p), bt.values());
        let wb = counting(bt.blank_mates(p));
        assert forall|q: Coords| in_grid(q) implies 0 <= #[trigger] ws(q) <= 0 by {
            assert(b.cages.id(q) == 9 * q.y + q.x);
            assert(b.cages.id(p) == 9 * p.y + p.x);
        }
        assert forall|q: Coords| in_grid(q) implies 0 <= #[trigger] wb(q) <= 0 by {
            assert(b.cages.id(q) == 9 * q.y + q.x);
            assert(b.cages.id(p) == 9 * p.y + p.x);
        }
        lemma_tally_between(ws, 0, 0);
        lemma_tally_between(wb, 0, 0);
        lemma_fill_nothing();
        assert(bt.within_bounds(p, d));
        assert(b.cages.sums[b.cages.id(p)] == digit_at(key, p)->0);
        assert(!cell_at(key, p).fixed && digit_at(key, p) is Some);
    }
    lemma_same_cells(t, key);
}

/// Merging two regions that together hold no digit of `key` twice leaves
/// the cages fitting `key`.
pub proof fn lemma_join_keeps_match(before: Board, after: Board, a: u32, b: u32, k: u32, key: Grid)
    requires
        before.cages.active(),
        before.cages.wf(),
        before.cages_match(key),
        before.cages.joinable(a, b, key),
        a != b,
        before.cages.sums.contains_key(a),
        before.cages.sums.contains_key(b),
        k == before.cages.next,
        after.cages.sums == before.cages.sums.remove(a).remove(b).insert(
            k,
            (before.cages.sums[a] + before.cages.sums[b]) as u32,
        ),
        before.cages.sums[a] + before.cages.sums[b] <= u32::MAX,
        forall|p: Coords|
            in_grid(p) ==> #[trigger] after.cages.id(p) == before.cages.merged_id(a, b, k, p),
    ensures
        after.cages_match(key),
{
    let bk = before.on(key);
    let ak = after.on(key);
    let pa = choose|p: Coords| in_grid(p) && #[trigger] before.cages.id(p) == a;
    let pb = choose|p: Coords| in_grid(p) && #[trigger] before.cages.id(p) == b;
    assert(before.cages.sums[a] == bk.cage_sum(a)) by {
        assert(before.cages.sums[before.cages.id(pa)] == bk.cage_sum(before.cages.id(pa)));
    }
    assert(before.cages.sums[b] == bk.cage_sum(b)) by {
        assert(before.cages.sums[before.cages.id(pb)] == bk.cage_sum(before.cages.id(pb)));
    }
    assert forall|p: Coords| in_grid(p) implies after.cages.sums[#[trigger] after.cages.id(p)]
        == ak.cage_sum(after.cages.id(p)) by {
        let j = after.cages.id(p);
        assert(before.cages.id(p) < before.cages.next);
        let w = adding(ak.cage(j), ak.values());
        if j == k {
            let wa = adding(bk.cage(a), bk.values());
            let wb = adding(bk.cage(b), bk.values());
            assert forall|q: Coords| in_grid(q) implies #[trigger] w(q) == wa(q) + wb(q) by {
                assert(after.cages.id(q) == before.cages.merged_id(a, b, k, q));
                assert(before.cages.id(q) < before.cages.next);
            }
            lemma_tally_split(w, wa, wb);
        } else {
            let wj = adding(bk.cage(j), bk.values());
            assert forall|q: Coords| in_grid(q) implies #[trigger] w(q) == wj(q) by {
                assert(after.cages.id(q) == before.cages.merged_id(a, b, k, q));
            }
            lemma_tally_same(w, wj);
            assert(before.cages.sums[before.cages.id(p)] == bk.cage_sum(before.cages.id(p)));
        }
    }
    assert forall|p: Coords, q: Coords|
        #![trigger after.cages.id(p), after.cages.id(q)]
        in_grid(p) && in_grid(q) && p != q && after.cages.id(p) == after.cages.id(
            q,
        ) implies digit_at(key, p) != digit_at(key, q) by {
        assert(after.cages.id(p) == before.cages.merged_id(a, b, k, p));
        assert(after.cages.id(q) == before.cages.merged_id(a, b, k, q));
        assert(before.cages.id(p) < before.cages.next);
        assert(before.cages.id(q) < before.cages.next);
    }
}

/// A region whose cells hold no digit of a sound grid twice has nine cells
/// at most.
pub proof fn lemma_region_is_small(b: Board, key: Grid, k: u32)
    requires
        b.on(key).sound(),
        b.cages_match(key),
    ensures
        b.cages.size(k) <= 9,
{
    let bk = b.on(key);
    let sel = b.cages.member(k);
    let f = bk.values();
    assert forall|p: Coords| in_grid(p) && #[trigger] sel(p) implies 1 <= f(p) <= 9 by {
        assert(is_digit(bk.digit(p)));
    }
    assert forall|p: Coords, q: Coords|
        in_grid(p) && in_grid(q) && #[trigger] sel(p) && #[trigger] sel(q) && p != q implies f(p)
        != f(q) by {
        assert(b.cages.id(p) == b.cages.id(q));
        assert(is_digit(bk.digit(p)) && is_digit(bk.digit(q)));
    }
    lemma_distinct_digits_total(sel, f);
}

/// A region of fewer than 81 cells leaves a cell outside it.
pub proof fn lemma_cell_outside(cages: Cages, k: u32) -> (q: Coords)
    requires
        cages.size(k) < 81,
    ensures
        in_grid(q),
        cages.id(q) != k,
{
    let w = counting(cages.member(k));
    if forall|p: Coords| in_grid(p) ==> #[trigger] cages.id(p) == k {
        assert forall|p: Coords| in_grid(p) implies 1 <= #[trigger] w(p) <= 1 by {
            assert(cages.id(p) == k);
        }
        lemma_tally_between(w, 1, 1);
    }
    choose|q: Coords| in_grid(q) && #[trigger] cages.id(q) != k
}

/// In a full grid of digits, what a cage holds adds up to 729 at most.
proof fn lemma_cage_sum_small(b: Board, k: u32)
    requires
        forall|p: Coords| in_grid(p) ==> is_digit(#[trigger] b.digit(p)),
    ensures
        0 <= b.cage_sum(k) <= 729,
{
    let w = adding(b.cage(k), b.values());
    assert forall|p: Coords| in_grid(p) implies 0 <= #[trigger] w(p) <= 9 by {
        assert(is_digit(b.digit(p)));
    }
    lemma_tally_between(w, 0, 9);
}

impl Field {
    /// The cells that hold a digit, in row-major order.
    pub fn digit_cells(&self) -> (vec: Vec<Coords>)
        ensures
            forall|i: int|
                0 <= i < vec.len() ==> in_grid(#[trigger] vec[i]) && self@.digit(vec[i]) is Some,
            forall|p: Coords|
                in_grid(p) && (#[trigger] self@.digit(p)) is Some ==> vec@.contains(p),
            forall|i: int, j: int|
                0 <= i < j < vec.len() ==> comes_before(#[trigger] vec[i], #[trigger] vec[j]),
    {
        let mut vec: Vec<Coords> = Vec::new();
        for y in 0..9u8
            invariant
                forall|i: int|
                    0 <= i < vec.len() ==> in_grid(#[trigger] vec[i]) && self@.digit(
                        vec[i],
                    ) is Some && vec[i].y < y,
                forall|p: Coords|
                    in_grid(p) && p.y < y && (#[trigger] self@.digit(p)) is Some ==> vec@.contains(
                        p,
                    ),
                forall|i: int, j: int|
                    0 <= i < j < vec.len() ==> comes_before(#[trigger] vec[i], #[trigger] vec[j]),
        {
            for x in 0..9u8
                invariant
                    y < 9,
                    forall|i: int|
                        0 <= i < vec.len() ==> in_grid(#[trigger] vec[i]) && self@.digit(
                            vec[i],
                        ) is Some && (vec[i].y < y || (vec[i].y == y && vec[i].x < x)),
                    forall|p: Coords|
                        in_grid(p) && (p.y < y || (p.y == y && p.x < x)) && (#[trigger] self@.digit(
                            p,
                        )) is Some ==> vec@.contains(p),
                    forall|i: int, j: int|
                        0 <= i < j < vec.len() ==> comes_before(
                            #[trigger] vec[i],
                            #[trigger] vec[j],
                        ),
            {
                let coords = Coords { x, y };
                if self.cells[y as usize][x as usize].digit.is_some() {
                    let ghost prev = vec@;
                    vec.push(coords);
                    proof {
                        assert(vec@[prev.len() as int] == coords);
                        assert forall|p: Coords|
                            in_grid(p) && (p.y < y || (p.y == y && p.x < x + 1)) && (
                            #[trigger] self@.digit(p)) is Some implies vec@.contains(p) by {
                            if p == coords {
                            } else {
                                assert(prev.contains(p));
                                let i = choose|i: int| 0 <= i < prev.len() && prev[i] == p;
                                assert(vec@[i] == p);
                            }
                        }
                    }
                }
            }
        }
        vec
    }

    /// A full sound grid with `digit` in column `x` of row `y`, found by the
    /// solver from the grid that is empty but for that digit. No cell of it
    /// is a given.
    pub fn seeded_solution(&self, x: u8, y: u8, digit: u8) -> (r: [[Cell; 9]; 9])
        requires
            x < 9,
            y < 9,
            1 <= digit <= 9,
        ensures
            self@.on(r).sound(),
            forall|p: Coords| in_grid(p) ==> !(#[trigger] cell_at(r, p)).fixed,
            digit_at(r, Coords { x, y }) == Some(digit),
    {
        // Create a blank board with a single guess
        let mut field = Field {
            cells: [[Cell { digit: None, fixed: false }; 9]; 9],
            regions: Regions::none(),
        };
        let ghost empty = field.cells;
        field.get_cell(x, y).digit = Some(digit);
        let ghost seed = Coords { x, y };
        let ghost b = field@;
        proof {
            assert forall|p: Coords| in_grid(p) implies #[trigger] cell_at(empty, p)
                == blank_cell() by {}
            assert forall|p: Coords| in_grid(p) && p != seed implies (#[trigger] b.digit(
                p,
            )) is None by {
                assert(cell_at(b.cells, p) == cell_at(empty, p));
            }
            lemma_seeded_board_solvable(b, seed, digit);
        }

        // Find a solution from that
        let solved = field.find_solution().unwrap();
        proof {
            let s = solved.cells;
            let bs = b.on(s);
            assert forall|p: Coords| in_grid(p) implies is_digit(#[trigger] bs.digit(p))
                && bs.unopposed(p, bs.digit(p)->0) by {
                assert(b.filled_by(s, p));
                if p == seed {
                    assert forall|q: Coords| !#[trigger] bs.row_hit(seed, digit, q) by {
                        if bs.row_hit(seed, digit, q) {
                            assert(b.filled_by(s, q));
                            assert(b.digit(q) is None);
                            assert(bs.row_hit(q, digit, seed));
                        }
                    }
                    assert forall|q: Coords| !#[trigger] bs.col_hit(seed, digit, q) by {
                        if bs.col_hit(seed, digit, q) {
                            assert(b.filled_by(s, q));
                            assert(b.digit(q) is None);
                            assert(bs.col_hit(q, digit, seed));
                        }
                    }
                    assert forall|q: Coords| !#[trigger] bs.box_hit(seed, digit, q) by {
                        if bs.box_hit(seed, digit, q) {
                            assert(b.filled_by(s, q));
                            assert(b.digit(q) is None);
                            assert(bs.box_hit(q, digit, seed));
                        }
                    }
                } else {
                    assert(b.digit(p) is None);
                }
            }
            lemma_sound_whatever_cages(bs, self@.on(s));
            assert(b.filled_by(s, seed));
            assert forall|p: Coords| in_grid(p) implies !(#[trigger] cell_at(s, p)).fixed by {
                assert(b.filled_by(s, p));
                if p != seed {
                    assert(cell_at(b.cells, p) == cell_at(empty, p));
                }
            }
        }
        solved.cells
    }

    /// A full sound grid, found by the solver from an empty grid with one
    /// random digit in one random cell. No cell of it is a given.
    pub fn random_cells(&self) -> (r: [[Cell; 9]; 9])
        ensures
            self@.on(r).sound(),
            forall|p: Coords| in_grid(p) ==> !(#[trigger] cell_at(r, p)).fixed,
    {
        let x = random_in(0, 9) as u8;
        let y = random_in(0, 9) as u8;
        let digit = random_in(1, 10) as u8;
        self.seeded_solution(x, y, digit)
    }

    /// Empties the cell at `c` if exactly one solution remains without its
    /// digit, and says whether it did. The search for a second solution
    /// gives up after `max_steps` grids, if a limit is given; a search that
    /// is cut short leaves the digit in place.
    pub fn try_carve(&mut self, c: Coords, max_steps: Option<u64>) -> (kept: bool)
        requires
            in_grid(c),
            old(self)@.digit(c) is Some,
            old(self)@.cages.consistent(),
        ensures
            final(self).regions == old(self).regions,
            kept ==> final(self)@ == old(self)@.with_digit(c, None) && final(self)@.has_one_solution(),
            !kept ==> final(self).cells == old(self).cells,
            max_steps == Some(0u64) ==> !kept,
            max_steps is None || max_steps->0 >= search_size(old(self)@.with_digit(c, None)) ==> (
            kept <==> old(self)@.with_digit(c, None).has_one_solution()),
    {
        let ghost before = self@;
        let digit = self.cells[c.y as usize][c.x as usize].digit;
        self.get_cell(c.x, c.y).digit = None;
        proof {
            lemma_with_cell(
                before.cells,
                c,
                Cell { digit: None, fixed: cell_at(before.cells, c).fixed },
                self.cells,
            );
            assert(self@ == before.with_digit(c, None));
        }

        // If there's still only one solution, the cell stays empty
        let (solutions, cut) = self.find_solutions_within(2, max_steps);
        if !cut && solutions.len() == 1 {
            return true;
        }
        // Otherwise revert the change

        self.get_cell(c.x, c.y).digit = digit;
        proof {
            assert forall|p: Coords| in_grid(p) implies #[trigger] cell_at(self.cells, p)
                == cell_at(before.cells, p) by {}
            lemma_same_cells(self.cells, before.cells);
        }
        false
    }

    /// Merges the regions of `a` and `b` if their cells together hold no
    /// digit of `solution` twice and exactly one solution remains under the
    /// merged partition, and says whether it did. The search gives up after
    /// `max_steps` grids, if a limit is given; after a search that is cut
    /// short, the partition is put back as it was.
    pub fn try_merge(
        &mut self,
        a: Coords,
        b: Coords,
        solution: &[[Cell; 9]; 9],
        max_steps: Option<u64>,
    ) -> (merged: bool)
        requires
            in_grid(a),
            in_grid(b),
            old(self)@.cages.active(),
            old(self)@.cages.wf(),
            old(self)@.cages.id(a) != old(self)@.cages.id(b),
            old(self)@.cages.next < u32::MAX,
            old(self)@.cages.sums[old(self)@.cages.id(a)] + old(self)@.cages.sums[old(self)@.cages.id(b)] <= u32::MAX,
            forall|p: Coords|
                in_grid(p) && (old(self)@.cages.id(p) == old(self)@.cages.id(a) || old(self)@.cages.id(p) == old(self)@.cages.id(b)) ==> is_digit(
                    #[trigger] digit_at(*solution, p),
                ),
        ensures
            final(self).cells == old(self).cells,
            merged ==> old(self)@.cages.joined(
                old(self)@.cages.id(a),
                old(self)@.cages.id(b),
                final(self)@.cages,
            ) && final(self)@.cages.wf() && final(self)@.has_one_solution(),
            !merged ==> final(self)@ == old(self)@,
            !old(self)@.cages.joinable(
                old(self)@.cages.id(a),
                old(self)@.cages.id(b),
                *solution,
            ) ==> !merged,
            max_steps == Some(0u64) ==> !merged,
            old(self)@.cages.joinable(old(self)@.cages.id(a), old(self)@.cages.id(b), *solution)
                && (max_steps is None || max_steps->0 >= search_size(
                old(self)@.after_merge(a, b),
            )) ==> (merged <==> old(self)@.after_merge(a, b).has_one_solution()),
    {
        let ghost before = self@;
        let regions_copy = self.regions.clone();
        let reg_a = self.regions.id(&a);
        let reg_b = self.regions.id(&b);
        proof {
            assert(before.cages.sums.contains_key(before.cages.id(a)));
            assert(before.cages.sums.contains_key(before.cages.id(b)));
        }
        if !self.regions.can_regions_join(reg_a, reg_b, solution) {
            return false;
        }
        // Attempt to join the regions

        self.regions.join(reg_a, reg_b);
        proof {
            assert(self@ == before.after_merge(a, b));
        }

        // See if there's still only one solution
        let (solutions, cut) = self.find_solutions_within(3, max_steps);
        if !cut && solutions.len() == 1 {
            return true;
        }
        // If not, revert

        self.regions = regions_copy;
        false
    }

    /// Makes the field a puzzle with exactly one solution: fills the grid
    /// with a random full sound grid, then empties cells at random for as
    /// long as one solution remains, until twenty attempts have failed. No
    /// search for a second solution goes on for more than `SEARCH_ALLOWANCE`
    /// grids.
    pub fn fill_random(&mut self)
        requires
            old(self)@.cages.consistent(),
        ensures
            final(self).regions == old(self).regions,
            final(self)@.has_one_solution(),
            exists|key: Grid| #[trigger]
                final(self)@.carved_from(key) && final(self)@.on(key).sound(),
    {
        self.fill_random_within(Some(SEARCH_ALLOWANCE))
    }

    /// As `fill_random`, with a limit of the caller's choosing on each search
    /// for a second solution, or none. An attempt fails when the search
    /// finds a second solution, or none at all, or is cut short.
    pub fn fill_random_within(&mut self, max_steps: Option<u64>)
        requires
            old(self)@.cages.consistent(),
        ensures
            final(self).regions == old(self).regions,
            final(self)@.has_one_solution(),
            exists|key: Grid| #[trigger]
                final(self)@.carved_from(key) && final(self)@.on(key).sound(),
            max_steps == Some(0u64) ==> final(self)@.complete(),
    {
        self.cells = self.random_cells();
        let ghost key = self.cells;
        proof {
            let b = self@;
            assert(b.on(key) == b);
            assert(b.complete()) by {
                assert forall|p: Coords| in_grid(p) implies (#[trigger] b.digit(p)) is Some by {
                    assert(is_digit(b.digit(p)));
                }
            }
            lemma_full_board(b, key);
            assert forall|t: Grid| #[trigger] b.solved_by(t) implies t == key by {
                lemma_full_board(b, t);
            }
            assert(b.solved_by(key));
            lemma_tally_between(counting(b.vacant()), 0, 1);
        }
        let mut fails: u32 = 20;

        while fails > 0
            invariant
                self.regions == old(self).regions,
                self@.cages.consistent(),
                self@.has_one_solution(),
                self@.carved_from(key),
                self@.on(key).sound(),
                0 <= self@.blanks() <= 81,
                max_steps == Some(0u64) ==> self@.complete(),
            decreases fails, 81 - self@.blanks(),
        {
            // Try blanking a cell currently with a digit
            let filled = self.digit_cells();
            if filled.len() == 0 {
                break;
            }
            let idx = random_in(0, filled.len());
            let here = filled[idx];
            let ghost before = self@;

            // If there's still only one solution, continue
            if self.try_carve(here, max_steps) {
                proof {
                    let b = self@;
                    lemma_with_cell(
                        before.cells,
                        here,
                        Cell { digit: None, fixed: cell_at(before.cells, here).fixed },
                        b.cells,
                    );
                    assert forall|p: Coords| in_grid(p) implies !cell_at(key, p).fixed && (
                    #[trigger] cell_at(b.cells, p) == cell_at(key, p) || cell_at(b.cells, p)
                        == blank_cell()) by {
                        if p != here {
                            assert(cell_at(b.cells, p) == cell_at(before.cells, p));
                        }
                        assert(cell_at(before.cells, p) == cell_at(key, p) || cell_at(
                            before.cells,
                            p,
                        ) == blank_cell());
                    }
                    lemma_one_blank_less(b, here, before);
                    lemma_tally_between(counting(b.vacant()), 0, 1);
                    lemma_sound_whatever_cages(before.on(key), b.on(key));
                }
                continue;
            }
            // Otherwise the digit is back in place
            proof {
                assert(self@ == before);
            }

            // Continue looking though for a set number of unsuccessful attempts
            fails -= 1;
        }
    }

    /// Makes the field a cage puzzle with exactly one solution: empties the
    /// grid, gives every cell a region of its own that sums to the digit of
    /// a random full sound grid, then merges a random region with a random
    /// neighbour for as long as one solution remains. A merge that would put
    /// a digit twice into a cage, or that leaves more or fewer than one
    /// solution, is not made and counts as a failure; the third failure ends
    /// the run. No search for more solutions goes on for more than
    /// `SEARCH_ALLOWANCE` grids.
    pub fn fill_random_regions(&mut self)
        ensures
            final(self)@.blank(),
            final(self)@.cages.active(),
            final(self)@.cages.wf(),
            final(self)@.cages.contiguous(),
            final(self)@.has_one_solution(),
            exists|key: Grid| #[trigger]
                final(self)@.solved_only_by(key) && final(self)@.on(key).sound()
                    && final(self)@.cages_match(key),
    {
        self.fill_random_regions_within(Some(SEARCH_ALLOWANCE))
    }

    /// As `fill_random_regions`, with a limit of the caller's choosing on
    /// each search, or none. A merge after which the search is cut short is
    /// not made and counts as a failure.
    pub fn fill_random_regions_within(&mut self, max_steps: Option<u64>)
        ensures
            final(self)@.blank(),
            final(self)@.cages.active(),
            final(self)@.cages.wf(),
            final(self)@.cages.contiguous(),
            final(self)@.has_one_solution(),
            exists|key: Grid| #[trigger]
                final(self)@.solved_only_by(key) && final(self)@.on(key).sound()
                    && final(self)@.cages_match(key),
            max_steps == Some(0u64) ==> final(self)@.cages.sums.len() == 81,
    {
        let solution_cells = self.random_cells();
        let ghost key = solution_cells;

        // Create regions around every cell
        self.cells = [[Cell { digit: None, fixed: false }; 9]; 9];
        proof {
            let b = self@;
            lemma_sound_whatever_cages(old(self)@.on(key), b.on(key));
            assert forall|p: Coords| in_grid(p) implies (#[trigger] digit_at(
                solution_cells,
                p,
            )) is Some by {
                assert(is_digit(b.on(key).digit(p)));
            }
        }
        self.regions = Regions::singletons(&solution_cells);
        // That this much has exactly one solution takes no search to see:
        // every region pins the digit of its one cell.
        proof {
            let b = self@;
            lemma_sound_whatever_cages(old(self)@.on(key), b.on(key));
            assert forall|p: Coords| in_grid(p) implies #[trigger] cell_at(b.cells, p)
                == blank_cell() by {}
            lemma_singletons_match(b, key);
            lemma_cages_fit(b, key);
            assert forall|t: Grid| #[trigger] b.solved_by(t) implies t == key by {
                lemma_singletons_pin(b, key, t);
            }
            lemma_singletons_contiguous(b.cages);
        }

        let mut fails: u32 = 3;

        while fails > 0
            invariant
                self@.blank(),
                self@.cages.active(),
                self@.cages.wf(),
                self@.cages.contiguous(),
                self@.cages.sums.dom().finite(),
                self@.cages.next + self@.cages.sums.len() == 162,
                self@.on(key).sound(),
                forall|p: Coords| in_grid(p) ==> !(#[trigger] cell_at(key, p)).fixed,
                key == solution_cells,
                self@.cages_match(key),
                self@.solved_only_by(key),
                max_steps == Some(0u64) ==> self@.cages.sums.len() == 81,
            decreases fails, self@.cages.sums.len(),
        {
            let ghost before = self@;
            // Pick a region

            let x = random_in(0, 9) as u8;
            let y = random_in(0, 9) as u8;
            let loc = Coords { x, y };
            let r_idx = self.regions.id(&loc);
            // No region holds more than nine cells, so there is more than
            // one, and the one picked has a neighbour.
            proof {
                lemma_region_is_small(before, key, r_idx.0);
                let q = lemma_cell_outside(before.cages, r_idx.0);
                assert(before.cages.sums.contains_key(before.cages.id(loc)));
                assert(before.cages.sums.contains_key(before.cages.id(q)));
                let others = before.cages.sums.dom().remove(r_idx.0);
                assert(others.contains(before.cages.id(q)));
                assert(before.cages.sums.len() > 1);
                let n = lemma_border_exists(before.cages, r_idx.0, loc, q);
                assert(before.cages.borders(r_idx.0, n));
            }

            // Pick a random neighbouring region
            let n_loc = self.regions.random_neighbour(r_idx);
            let ghost n_idx = before.cages.id(n_loc);
            proof {
                assert(before.cages.sums.contains_key(before.cages.id(n_loc)));
                let bk = before.on(key);
                assert forall|p: Coords| in_grid(p) implies is_digit(#[trigger] bk.digit(p)) by {}
                assert forall|p: Coords|
                    in_grid(p) && (before.cages.id(p) == r_idx.0 || before.cages.id(p)
                        == n_idx) implies is_digit(#[trigger] digit_at(solution_cells, p)) by {
                    assert(is_digit(bk.digit(p)));
                }
                lemma_cage_sum_small(bk, r_idx.0);
                lemma_cage_sum_small(bk, n_idx);
                assert(before.cages.sums[before.cages.id(loc)] == bk.cage_sum(
                    before.cages.id(loc),
                ));
                assert(before.cages.sums[before.cages.id(n_loc)] == bk.cage_sum(
                    before.cages.id(n_loc),
                ));
            }

            // Join the two if one solution remains
            if self.try_merge(loc, n_loc, &solution_cells, max_steps) {
                proof {
                    let b = self@;
                    let new_idx = before.cages.next;
                    lemma_join_keeps_partition(before.cages, r_idx.0, n_idx, b.cages);
                    lemma_join_keeps_match(before, b, r_idx.0, n_idx, new_idx, key);
                    let m_loc = lemma_border_touches(before.cages, r_idx.0, n_loc);
                    assert forall|p: Coords| in_grid(p) implies #[trigger] before.cages.id(p)
                        != new_idx by {
                        assert(before.cages.id(p) < before.cages.next);
                    }
                    lemma_join_keeps_contiguous(
                        before.cages,
                        b.cages,
                        r_idx.0,
                        n_idx,
                        new_idx,
                        m_loc,
                        n_loc,
                    );
                    lemma_sound_whatever_cages(before.on(key), b.on(key));
                    assert forall|p: Coords| in_grid(p) implies #[trigger] cell_at(b.cells, p)
                        == blank_cell() by {
                        assert(cell_at(before.cells, p) == blank_cell());
                    }
                    lemma_cages_fit(b, key);
                    assert(b.cages.sums.dom().finite());
                }
                continue;
            }
            // If not, the partition is as it was: try again
            proof {
                assert(self@ == before);
            }
            fails -= 1;
        }
        proof {
            assert(self@.solved_by(key));
        }
    }

    /// A classic puzzle with exactly one solution, carved out of a random
    /// full sound grid, which is that solution.
    pub fn new() -> (field: Field)
        ensures
            !field@.cages.active(),
            field@.has_one_solution(),
            exists|key: Grid| #[trigger]
                field@.carved_from(key) && field@.on(key).sound() && field@.solved_only_by(key),
    {
        let mut field = Field {
            cells: [[Cell { digit: None, fixed: false }; 9]; 9],
            regions: Regions::none(),
        };
        field.fill_random();
        proof {
            let b = field@;
            let key = choose|key: Grid| #[trigger] b.carved_from(key) && b.on(key).sound();
            lemma_carved_key_solves(b, key);
            let s = choose|s: Grid| #[trigger]
                b.solved_by(s) && forall|t: Grid| #[trigger] b.solved_by(t) ==> t == s;
            assert(b.solved_only_by(key));
        }
        field
    }

    /// A cage puzzle with exactly one solution: an empty grid under a
    /// partition into regions with sums.
    #[allow(dead_code)]
    pub fn new_with_regions() -> (field: Field)
        ensures
            field@.blank(),
            field@.cages.active(),
            field@.cages.wf(),
            field@.cages.contiguous(),
            field@.has_one_solution(),
            exists|key: Grid| #[trigger]
                field@.solved_only_by(key) && field@.on(key).sound() && field@.cages_match(key),
    {
        let mut field = Field {
            cells: [[Cell { digit: None, fixed: false }; 9]; 9],
            regions: Regions::new(),
        };
        field.fill_random_regions();
        field
    }
}

} // verus!

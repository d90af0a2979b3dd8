//! The backtracking solver: up to a given number of solutions of a puzzle.

use vstd::prelude::*;
use crate::field::{Coords, Cell, Field, Grid, Board, in_grid, cell_at, digit_at, comes_before, lemma_same_cells, lemma_with_cell};
use crate::completion::{lemma_full_board, lemma_one_blank_less, lemma_solution_digit_is_legal, lemma_placement};
use crate::rng::shuffle;
use crate::tally::{lemma_tally_differ_at, lemma_tally_between};
use crate::digits::counting;

verus! {

/// How far a search may still go: the number of grids it may still visit,
/// if that is limited, and whether it has been cut short for want of it.
pub struct Effort {
    pub left: Option<u64>,
    pub cut: bool,
}

/// The most grids that a search below a grid with `blanks` empty cells
/// visits: the grid itself, and for each of nine digits what lies below.
pub open spec fn search_bound(blanks: nat) -> nat
    decreases blanks,
{
    if blanks == 0 {
        1
    } else {
        1 + 9 * search_bound((blanks - 1) as nat)
    }
}

/// The grids the search below `b` visits when nothing stops it early, down
/// to `depth` cells deep: `b` itself and, for each digit legal in the first
/// empty cell, what lies below.
pub open spec fn search_below(b: Board, depth: nat) -> nat
    decreases depth, 11nat,
{
    if depth == 0 || b.complete() {
        1
    } else {
        1 + branches(b, b.first_blank(), depth, 9)
    }
}

/// The grids the search visits below `b` with the digits `1..=m` in `c`.
pub open spec fn branches(b: Board, c: Coords, depth: nat, m: nat) -> nat
    decreases depth, m + 1,
{
    if m == 0 {
        0
    } else {
        branches(b, c, depth, (m - 1) as nat) + branch(b, c, depth, m as u8)
    }
}

/// The grids the search visits below `b` with `d` in `c`: none where `d` is
/// not legal there.
pub open spec fn branch(b: Board, c: Coords, depth: nat, d: u8) -> nat
    decreases depth, 0nat,
{
    if depth > 0 && b.legal(c, d) {
        search_below(b.with_digit(c, Some(d)), (depth - 1) as nat)
    } else {
        0
    }
}

/// The grids the search below `b` visits when nothing stops it early. No
/// order of the digits changes it.
pub open spec fn search_size(b: Board) -> nat {
    search_below(b, b.blanks() as nat)
}

/// Of the grids below `b`, those under the digits `1..=m` that are among the
/// first `n` of `digits`.
pub open spec fn tried_branches(
    b: Board,
    c: Coords,
    depth: nat,
    digits: Seq<u8>,
    n: int,
    m: nat,
) -> nat
    decreases m,
{
    if m == 0 {
        0
    } else {
        tried_branches(b, c, depth, digits, n, (m - 1) as nat) + if tried(
            digits,
            n,
            Some(m as u8),
        ) {
            branch(b, c, depth, m as u8)
        } else {
            0
        }
    }
}

/// The solutions from index `from` on come in the order in which `digits`
/// has their digit at `c`.
pub open spec fn in_order_of(digits: Seq<u8>, found: Seq<Field>, from: int, c: Coords) -> bool {
    forall|k: int, l: int, i: int, j: int|
        #![trigger found[k], found[l], digits[i], digits[j]]
        from <= k < l < found.len() && 0 <= i < digits.len() && 0 <= j < digits.len() && digit_at(
            found[k].cells,
            c,
        ) == Some(digits[i]) && digit_at(found[l].cells, c) == Some(digits[j]) ==> i <= j
}

/// The grid of the last solution on record.
pub open spec fn last_found(found: Seq<Field>) -> Grid {
    found[found.len() - 1].cells
}

/// The grids that a search has visited on the way from `before` to `after`.
pub open spec fn visited(before: Effort, after: Effort) -> int {
    match (before.left, after.left) {
        (Some(n), Some(m)) => n - m,
        _ => 0,
    }
}

/// From index `from` on, `found` holds solutions of `b`, each with `b`'s
/// cages, no two alike.
pub open spec fn lists_solutions(b: Board, found: Seq<Field>, from: int) -> bool {
    &&& forall|i: int|
        from <= i < found.len() ==> (#[trigger] found[i])@.cages == b.cages && b.solved_by(
            found[i].cells,
        )
    &&& forall|i: int, j: int|
        from <= i < j < found.len() ==> (#[trigger] found[i]).cells != (#[trigger] found[j]).cells
}

/// `s` is one of the grids that `found` holds from index `from` on.
pub open spec fn listed(found: Seq<Field>, from: int, s: Grid) -> bool {
    exists|k: int| from <= k < found.len() && (#[trigger] found[k]).cells == s
}

/// From index `from` on, `found` holds every solution of `b`.
pub open spec fn lists_every_solution(b: Board, found: Seq<Field>, from: int) -> bool {
    forall|s: Grid| #[trigger] b.solved_by(s) ==> listed(found, from, s)
}

/// `d` is one of the first `n` of `digits`.
pub open spec fn tried(digits: Seq<u8>, n: int, d: Option<u8>) -> bool {
    exists|j: int| 0 <= j < n && d == Some(#[trigger] digits[j])
}

/// The digits from 1 to 9 in some order: each once.
pub open spec fn all_digits_once(digits: Seq<u8>) -> bool {
    &&& digits.len() == 9
    &&& digits.no_duplicates()
    &&& forall|i: int| 0 <= i < 9 ==> 1 <= #[trigger] digits[i] <= 9
    &&& forall|d: u8| 1 <= d <= 9 ==> tried(digits, 9, Some(d))
}

/// No search visits more grids than a grid with so many empty cells allows.
pub proof fn lemma_size_within_bound(b: Board, depth: nat)
    ensures
        1 <= search_below(b, depth) <= search_bound(depth),
    decreases depth, 11nat,
{
    if depth == 0 || b.complete() {
    } else {
        lemma_branches_within_bound(b, b.first_blank(), depth, 9);
    }
}

proof fn lemma_branches_within_bound(b: Board, c: Coords, depth: nat, m: nat)
    requires
        depth > 0,
    ensures
        branches(b, c, depth, m) <= m * search_bound((depth - 1) as nat),
    decreases depth, m + 1,
{
    let below = search_bound((depth - 1) as nat);
    if m == 0 {
        assert(m * below == 0) by (nonlinear_arith)
            requires
                m == 0,
        ;
    } else {
        let less = (m - 1) as nat;
        lemma_branches_within_bound(b, c, depth, less);
        lemma_size_within_bound(b.with_digit(c, Some(m as u8)), (depth - 1) as nat);
        assert(branch(b, c, depth, m as u8) <= below);
        assert(m * below == less * below + below) by (nonlinear_arith)
            requires
                less == m - 1,
        ;
    }
}

/// The branches tried so far are among all the branches.
proof fn lemma_tried_among_all(b: Board, c: Coords, depth: nat, digits: Seq<u8>, n: int, m: nat)
    ensures
        tried_branches(b, c, depth, digits, n, m) <= branches(b, c, depth, m),
    decreases m,
{
    if m > 0 {
        lemma_tried_among_all(b, c, depth, digits, n, (m - 1) as nat);
    }
}

/// Before any digit is tried, no branch is.
proof fn lemma_tried_none(b: Board, c: Coords, depth: nat, digits: Seq<u8>, m: nat)
    ensures
        tried_branches(b, c, depth, digits, 0, m) == 0,
    decreases m,
{
    if m > 0 {
        lemma_tried_none(b, c, depth, digits, (m - 1) as nat);
    }
}

/// Trying one more digit adds its branch and no other.
proof fn lemma_tried_one_more(b: Board, c: Coords, depth: nat, digits: Seq<u8>, n: int, m: nat)
    requires
        digits.no_duplicates(),
        0 <= n < digits.len(),
        m <= 255,
    ensures
        tried_branches(b, c, depth, digits, n + 1, m) == tried_branches(b, c, depth, digits, n, m)
            + if 1 <= digits[n] <= m {
            branch(b, c, depth, digits[n])
        } else {
            0
        },
    decreases m,
{
    if m > 0 {
        lemma_tried_one_more(b, c, depth, digits, n, (m - 1) as nat);
        let d = m as u8;
        if tried(digits, n, Some(d)) {
            let j = choose|j: int| 0 <= j < n && Some(d) == Some(#[trigger] digits[j]);
            assert(0 <= j < n + 1 && Some(d) == Some(digits[j]));
            assert(digits[n] != d);
        } else if digits[n] == d {
            assert(Some(d) == Some(digits[n]));
        } else {
            if tried(digits, n + 1, Some(d)) {
                let j = choose|j: int| 0 <= j < n + 1 && Some(d) == Some(#[trigger] digits[j]);
                assert(j < n);
            }
        }
    }
}

/// Solutions appended under the digit now tried come after those under the
/// digits tried before.
proof fn lemma_still_in_order(
    digits: Seq<u8>,
    before: Seq<Field>,
    after: Seq<Field>,
    from: int,
    c: Coords,
    n: int,
)
    requires
        digits.no_duplicates(),
        0 <= n < digits.len(),
        from <= before.len() <= after.len(),
        in_order_of(digits, before, from, c),
        forall|k: int| from <= k < before.len() ==> #[trigger] after[k] == before[k],
        forall|k: int|
            from <= k < before.len() ==> tried(digits, n, digit_at((#[trigger] before[k]).cells, c)),
        forall|k: int|
            before.len() <= k < after.len() ==> digit_at((#[trigger] after[k]).cells, c) == Some(
                digits[n],
            ),
    ensures
        in_order_of(digits, after, from, c),
{
    assert forall|k: int, l: int, i: int, j: int|
        #![trigger after[k], after[l], digits[i], digits[j]]
        from <= k < l < after.len() && 0 <= i < digits.len() && 0 <= j < digits.len() && digit_at(
            after[k].cells,
            c,
        ) == Some(digits[i]) && digit_at(after[l].cells, c) == Some(digits[j]) implies i <= j by {
        if l < before.len() {
            assert(after[k] == before[k] && after[l] == before[l]);
        } else {
            assert(digits[j] == digits[n]);
            assert(j == n);
            if k < before.len() {
                assert(after[k] == before[k]);
                let t = choose|t: int|
                    0 <= t < n && digit_at(before[k].cells, c) == Some(#[trigger] digits[t]);
                assert(digits[i] == digits[t]);
                assert(i == t);
            } else {
                assert(digits[i] == digits[n]);
                assert(i == n);
            }
        }
    }
}

/// The first empty cell is the one that the scan finds.
proof fn lemma_first_blank(b: Board, c: Coords)
    requires
        b.is_first_blank(c),
    ensures
        b.first_blank() == c,
        !b.complete(),
{
    let f = b.first_blank();
    assert(b.is_first_blank(f));
    if f != c {
        if comes_before(f, c) {
            assert(b.digit(f) is Some);
        } else {
            assert(comes_before(c, f));
            assert(b.digit(c) is Some);
        }
    }
}

/// A board with an empty cell has a blank to count.
proof fn lemma_has_blank(b: Board, c: Coords)
    requires
        in_grid(c),
        b.digit(c) is None,
    ensures
        b.blanks() >= 1,
{
    let w = counting(b.vacant());
    let z = |p: Coords|
        if p == c {
            0int
        } else {
            w(p)
        };
    lemma_tally_differ_at(w, z, c);
    lemma_tally_between(z, 0, 1);
}

/// However the digits 1 to 9 are shuffled, each is still there once.
proof fn lemma_shuffled_digits(before: Seq<u8>, after: Seq<u8>)
    requires
        before == seq![1u8, 2u8, 3u8, 4u8, 5u8, 6u8, 7u8, 8u8, 9u8],
        after.to_multiset() == before.to_multiset(),
    ensures
        all_digits_once(after),
{
    before.to_multiset_ensures();
    after.to_multiset_ensures();
    assert(before.no_duplicates());
    before.lemma_multiset_has_no_duplicates();
    after.lemma_multiset_has_no_duplicates_conv();
    assert forall|i: int| 0 <= i < 9 implies 1 <= #[trigger] after[i] <= 9 by {
        assert(after.contains(after[i]));
        assert(after.to_multiset().count(after[i]) > 0);
        assert(before.to_multiset().count(after[i]) > 0);
        assert(before.contains(after[i]));
    }
    assert forall|d: u8| 1 <= d <= 9 implies tried(after, 9, Some(d)) by {
        assert(before[d - 1] == d);
        assert(before.contains(d));
        assert(before.to_multiset().count(d) > 0);
        assert(after.to_multiset().count(d) > 0);
        assert(after.contains(d));
        let j = choose|j: int| 0 <= j < after.len() && after[j] == d;
        assert(Some(d) == Some(after[j]));
    }
}

/// What the number of solutions found says of the puzzle. A search for up
/// to `cap` solutions comes back empty exactly when there is none, and, with
/// a cap of two or more, with one exactly when there is just one: so solving
/// a puzzle that has one solution with a cap of two yields one.
pub proof fn lemma_count_tells(b: Board, found: Seq<Field>, cap: int)
    requires
        found.len() <= cap,
        lists_solutions(b, found, 0),
        found.len() < cap ==> lists_every_solution(b, found, 0),
    ensures
        cap >= 1 ==> (found.len() == 0 <==> !b.solvable()),
        cap >= 2 ==> (found.len() == 1 <==> b.has_one_solution()),
{
    if found.len() > 0 {
        assert(b.solved_by(found[0].cells));
    }
    if cap >= 1 && found.len() == 0 {
        assert forall|s: Grid| !#[trigger] b.solved_by(s) by {
            if b.solved_by(s) {
                assert(listed(found, 0, s));
            }
        }
    }
    if cap >= 2 && found.len() == 1 {
        let s = found[0].cells;
        assert forall|t: Grid| #[trigger] b.solved_by(t) implies t == s by {
            assert(listed(found, 0, t));
        }
    }
    if cap >= 2 && b.has_one_solution() {
        let s = choose|s: Grid| #[trigger]
            b.solved_by(s) && forall|t: Grid| #[trigger] b.solved_by(t) ==> t == s;
        if found.len() == 0 {
            assert(listed(found, 0, s));
        } else if found.len() >= 2 {
            assert(b.solved_by(found[0].cells));
            assert(b.solved_by(found[1].cells));
            assert(found[0].cells != found[1].cells);
        }
    }
}

impl Field {
    /// The first empty cell in row-major order, if there is one.
    pub fn first_empty(&self) -> (r: Option<Coords>)
        ensures
            match r {
                Some(c) => in_grid(c) && self@.digit(c) is None && forall|p: Coords|
                    in_grid(p) && comes_before(p, c) ==> (#[trigger] self@.digit(p)) is Some,
                None => self@.complete(),
            },
    {
        for y in 0..9u8
            invariant
                forall|p: Coords| in_grid(p) && p.y < y ==> (#[trigger] self@.digit(p)) is Some,
        {
            for x in 0..9u8
                invariant
                    y < 9,
                    forall|p: Coords|
                        in_grid(p) && (p.y < y || (p.y == y && p.x < x)) ==> (
                        #[trigger] self@.digit(p)) is Some,
            {
                if self.cells[y as usize][x as usize].digit.is_none() {
                    return Some(Coords { x: x, y: y });
                }
            }
        }
        None
    }

    /// Up to `stop_at` solutions of the puzzle, no two alike; every solution
    /// there is, where that is fewer than `stop_at`. Which ones are found
    /// first is left to chance. The field is left as it was.
    pub fn find_solutions(&mut self, stop_at: u32) -> (solutions: Vec<Field>)
        requires
            old(self)@.cages.consistent(),
        ensures
            *final(self) == *old(self),
            solutions.len() <= stop_at,
            lists_solutions(old(self)@, solutions@, 0),
            solutions.len() < stop_at ==> lists_every_solution(old(self)@, solutions@, 0),
            stop_at >= 1 ==> (solutions.len() == 0 <==> !old(self)@.solvable()),
            stop_at >= 2 ==> (solutions.len() == 1 <==> old(self)@.has_one_solution()),
    {
        let (solutions, cut) = self.find_solutions_within(stop_at, None);
        proof {
            lemma_count_tells(self@, solutions@, stop_at as int);
        }
        solutions
    }

    /// As `find_solutions`, but with a limit on the search, if one is given:
    /// the search gives up once it has visited `max_steps` grids. Returns
    /// the solutions found and whether the search was cut short; only a
    /// search that was not cut short and found fewer than `stop_at`
    /// solutions has found them all. A search is never cut short without a
    /// limit, nor with one that covers the grids that the search visits when
    /// nothing stops it, whatever the order of the digits.
    pub fn find_solutions_within(&mut self, stop_at: u32, max_steps: Option<u64>) -> (r: (
        Vec<Field>,
        bool,
    ))
        requires
            old(self)@.cages.consistent(),
        ensures
            *final(self) == *old(self),
            r.0.len() <= stop_at,
            lists_solutions(old(self)@, r.0@, 0),
            !r.1 && r.0.len() < stop_at ==> lists_every_solution(old(self)@, r.0@, 0),
            !r.1 && stop_at >= 1 ==> (r.0.len() == 0 <==> !old(self)@.solvable()),
            !r.1 && stop_at >= 2 ==> (r.0.len() == 1 <==> old(self)@.has_one_solution()),
            r.1 ==> r.0.len() < stop_at && max_steps is Some && max_steps->0 < search_size(
                old(self)@,
            ),
            search_size(old(self)@) <= search_bound(old(self)@.blanks() as nat),
            max_steps == Some(0u64) && stop_at >= 1 ==> r.1,
    {
        proof {
            lemma_size_within_bound(self@, self@.blanks() as nat);
        }
        let mut solutions = Vec::new();
        if stop_at == 0 {
            return (solutions, false);
        }
        let mut field = self.clone();
        let mut effort = Effort { left: max_steps, cut: false };
        field.find_solutions_impl(&mut solutions, stop_at, &mut effort);
        proof {
            if !effort.cut {
                lemma_count_tells(self@, solutions@, stop_at as int);
            }
        }
        (solutions, effort.cut)
    }

    /// Some solution of the puzzle, if it has one.
    pub fn find_solution(&mut self) -> (r: Option<Field>)
        requires
            old(self)@.cages.consistent(),
        ensures
            *final(self) == *old(self),
            match r {
                Some(s) => s@.cages == old(self)@.cages && old(self)@.solved_by(s.cells),
                None => !old(self)@.solvable(),
            },
    {
        let solutions = self.find_solutions(1);
        if solutions.len() > 0 {
            return Some(solutions[0].clone());
        }
        proof {
            let b = self@;
            assert forall|s: Grid| !#[trigger] b.solved_by(s) by {
                if b.solved_by(s) {
                    assert(listed(solutions@, 0, s));
                }
            }
        }
        None
    }

    /// Replaces the grid by some solution of the puzzle, if it has one, and
    /// leaves it as it is otherwise.
    pub fn fill_solution(&mut self)
        requires
            old(self)@.cages.consistent(),
        ensures
            final(self).regions == old(self).regions,
            if old(self)@.solvable() {
                old(self)@.solved_by(final(self).cells)
            } else {
                final(self).cells == old(self).cells
            },
    {
        if let Some(s) = self.find_solution() {
            self.cells = s.cells;
        }
    }

    /// The search below the current grid: finds the first empty cell,
    /// shuffles the digits from 1 to 9 and tries them there in that order.
    /// Returns whether the search is over: `stop_at` solutions are on
    /// record, or the effort allowed is used up.
    fn find_solutions_impl(
        &mut self,
        solutions: &mut Vec<Field>,
        stop_at: u32,
        effort: &mut Effort,
    ) -> (stop: bool)
        requires
            old(self)@.cages.consistent(),
            old(solutions).len() < stop_at,
            !old(effort).cut,
        ensures
            final(self).regions == old(self).regions,
            !stop ==> final(self).cells == old(self).cells,
            stop && !final(effort).cut ==> final(self).cells == last_found(final(solutions)@),
            old(solutions).len() <= final(solutions).len() <= stop_at,
            forall|i: int|
                0 <= i < old(solutions).len() ==> #[trigger] final(solutions)[i] == old(
                    solutions,
                )[i],
            stop <==> final(solutions).len() == stop_at || final(effort).cut,
            final(effort).cut ==> final(solutions).len() < stop_at,
            old(effort).left is None ==> final(effort).left is None && !final(effort).cut,
            old(effort).left is Some ==> final(effort).left is Some,
            0 <= visited(*old(effort), *final(effort)) <= search_size(old(self)@),
            final(effort).cut ==> old(effort).left is Some && old(effort).left->0 < search_size(
                old(self)@,
            ),
            old(effort).left == Some(0u64) ==> final(effort).cut,
            lists_solutions(old(self)@, final(solutions)@, old(solutions).len() as int),
            !stop ==> lists_every_solution(
                old(self)@,
                final(solutions)@,
                old(solutions).len() as int,
            ),
        decreases old(self)@.blanks(), 1nat,
    {
        let ghost g = self@;
        let ghost start = solutions.len() as int;
        proof {
            lemma_size_within_bound(g, g.blanks() as nat);
        }
        match effort.left {
            Some(n) => {
                if n == 0 {
                    effort.cut = true;
                    return true;
                }
                effort.left = Some(n - 1);
            },
            None => {},
        }
        let empty_cell = self.first_empty();

        if empty_cell.is_none() {
            solutions.push(self.clone());
            proof {
                assert(solutions@[start] @ == g);
                assert forall|s: Grid| #[trigger] g.solved_by(s) implies listed(
                    solutions@,
                    start,
                    s,
                ) by {
                    lemma_full_board(g, s);
                    assert(solutions@[start].cells == s);
                }
                lemma_full_board(g, g.cells);
            }
            return solutions.len() >= (stop_at as usize);
        }
        let coords = empty_cell.unwrap();

        let mut digits: Vec<u8> = vec![1, 2, 3, 4, 5, 6, 7, 8, 9];
        proof {
            assert(digits@ =~= seq![1u8, 2u8, 3u8, 4u8, 5u8, 6u8, 7u8, 8u8, 9u8]);
        }
        let ghost sorted = digits@;
        shuffle(&mut digits);
        proof {
            lemma_shuffled_digits(sorted, digits@);
            lemma_first_blank(g, coords);
            lemma_has_blank(g, coords);
        }
        self.search_in_order(&coords, &digits, solutions, stop_at, effort)
    }

    /// The search below the current grid with the digits for the empty cell
    /// `coords` taken in the order of `digits`: each digit that is legal
    /// there is put in, searched below, and taken out again before the
    /// next. Returns whether the search is over: `stop_at` solutions are on
    /// record, or the effort allowed is used up.
    ///
    /// The solutions are appended in the order of `digits`. When the search
    /// is over for having found enough, the grid is left as the last
    /// solution; when it is not over, the grid is as it was and every
    /// solution is on record.
    pub fn search_in_order(
        &mut self,
        coords: &Coords,
        digits: &Vec<u8>,
        solutions: &mut Vec<Field>,
        stop_at: u32,
        effort: &mut Effort,
    ) -> (stop: bool)
        requires
            old(self)@.cages.consistent(),
            in_grid(*coords),
            old(self)@.digit(*coords) is None,
            all_digits_once(digits@),
            old(solutions).len() < stop_at,
            !old(effort).cut,
        ensures
            final(self).regions == old(self).regions,
            !stop ==> final(self).cells == old(self).cells,
            stop && !final(effort).cut ==> final(self).cells == last_found(final(solutions)@),
            old(solutions).len() <= final(solutions).len() <= stop_at,
            forall|i: int|
                0 <= i < old(solutions).len() ==> #[trigger] final(solutions)[i] == old(
                    solutions,
                )[i],
            stop <==> final(solutions).len() == stop_at || final(effort).cut,
            final(effort).cut ==> final(solutions).len() < stop_at,
            old(effort).left is None ==> final(effort).left is None && !final(effort).cut,
            old(effort).left is Some ==> final(effort).left is Some,
            0 <= visited(*old(effort), *final(effort)) <= branches(
                old(self)@,
                *coords,
                old(self)@.blanks() as nat,
                9,
            ),
            final(effort).cut ==> old(effort).left is Some && old(effort).left->0 < branches(
                old(self)@,
                *coords,
                old(self)@.blanks() as nat,
                9,
            ),
            lists_solutions(old(self)@, final(solutions)@, old(solutions).len() as int),
            in_order_of(digits@, final(solutions)@, old(solutions).len() as int, *coords),
            !stop ==> lists_every_solution(
                old(self)@,
                final(solutions)@,
                old(solutions).len() as int,
            ),
        decreases old(self)@.blanks(), 0nat,
    {
        let ghost g = self@;
        let ghost start = solutions.len() as int;
        let ghost earlier = solutions@;
        let ghost c = *coords;
        let ghost depth = g.blanks() as nat;
        proof {
            lemma_has_blank(g, c);
            lemma_tried_none(g, c, depth, digits@, 9);
        }
        let mut i: usize = 0;
        while i < 9
            invariant
                0 <= i <= 9,
                all_digits_once(digits@),
                self@ == g,
                g == old(self)@,
                c == *coords,
                depth == g.blanks(),
                depth >= 1,
                self.regions == old(self).regions,
                earlier == old(solutions)@,
                !effort.cut,
                old(effort).left is None ==> effort.left is None,
                old(effort).left is Some ==> effort.left is Some,
                0 <= visited(*old(effort), *effort) <= tried_branches(
                    g,
                    c,
                    depth,
                    digits@,
                    i as int,
                    9,
                ),
                g.cages.consistent(),
                in_grid(c),
                g.digit(c) is None,
                start == earlier.len(),
                start <= solutions.len() < stop_at,
                forall|k: int| 0 <= k < start ==> #[trigger] solutions[k] == earlier[k],
                lists_solutions(g, solutions@, start),
                in_order_of(digits@, solutions@, start, c),
                forall|k: int|
                    start <= k < solutions.len() ==> tried(
                        digits@,
                        i as int,
                        digit_at((#[trigger] solutions[k]).cells, c),
                    ),
                forall|s: Grid| #[trigger]
                    g.solved_by(s) && tried(digits@, i as int, digit_at(s, c)) ==> listed(
                        solutions@,
                        start,
                        s,
                    ),
            decreases 9 - i,
        {
            let digit = digits[i];
            let ghost so_far = solutions@;
            let ghost spent = *effort;
            proof {
                lemma_tried_one_more(g, c, depth, digits@, i as int, 9);
                lemma_tried_among_all(g, c, depth, digits@, i + 1, 9);
            }
            if self.find_conflict(coords, digit).is_none() {
                self.get_cell(coords.x, coords.y).digit = Some(digit);
                let ghost g2 = self@;
                proof {
                    lemma_one_blank_less(g, c, g2);
                    lemma_with_cell(
                        g.cells,
                        c,
                        Cell { digit: Some(digit), fixed: cell_at(g.cells, c).fixed },
                        g2.cells,
                    );
                    assert(g2 == g.with_digit(c, Some(digit)));
                    assert(search_size(g2) == branch(g, c, depth, digit));
                }
                let stop = self.find_solutions_impl(solutions, stop_at, effort);
                proof {
                    assert forall|k: int| so_far.len() <= k < solutions.len() implies g.solved_by(
                        (#[trigger] solutions[k]).cells,
                    ) && digit_at(solutions[k].cells, c) == Some(digit) by {
                        lemma_placement(g, c, digit, g2, solutions[k].cells);
                    }
                    assert forall|k: int| start <= k < so_far.len() implies #[trigger] solutions[k]
                        == so_far[k] by {}
                    assert forall|k: int, l: int|
                        start <= k < l < solutions.len() implies (#[trigger] solutions[k]).cells != (
                    #[trigger] solutions[l]).cells by {
                        if k < so_far.len() && l >= so_far.len() {
                            assert(solutions[k] == so_far[k]);
                            assert(tried(digits@, i as int, digit_at(so_far[k].cells, c)));
                        } else if l < so_far.len() {
                            assert(solutions[k] == so_far[k]);
                            assert(solutions[l] == so_far[l]);
                        }
                    }
                    assert forall|k: int| start <= k < solutions.len() implies (
                    #[trigger] solutions[k])@.cages == g.cages by {
                        if k < so_far.len() {
                            assert(solutions[k] == so_far[k]);
                        }
                    }
                    assert forall|k: int| start <= k < solutions.len() implies g.solved_by(
                        (#[trigger] solutions[k]).cells,
                    ) by {
                        if k < so_far.len() {
                            assert(solutions[k] == so_far[k]);
                        }
                    }
                    assert(lists_solutions(g, solutions@, start));
                    assert forall|k: int| 0 <= k < start implies #[trigger] solutions[k]
                        == earlier[k] by {
                        assert(solutions[k] == so_far[k]);
                    }
                    assert forall|k: int| start <= k < solutions.len() implies tried(
                        digits@,
                        i + 1,
                        digit_at((#[trigger] solutions[k]).cells, c),
                    ) by {
                        if k < so_far.len() {
                            assert(solutions[k] == so_far[k]);
                            let j = choose|j: int|
                                0 <= j < i && digit_at(so_far[k].cells, c) == Some(
                                    #[trigger] digits@[j],
                                );
                            assert(digit_at(solutions[k].cells, c) == Some(digits@[j]));
                        } else {
                            assert(digit_at(solutions[k].cells, c) == Some(digits@[i as int]));
                        }
                    }
                    lemma_still_in_order(digits@, so_far, solutions@, start, c, i as int);
                }
                if stop {
                    return true;
                }
                self.get_cell(coords.x, coords.y).digit = None;
                proof {
                    assert forall|p: Coords| in_grid(p) implies #[trigger] cell_at(self.cells, p)
                        == cell_at(g.cells, p) by {
                        if p != c {
                            assert(cell_at(g2.cells, p) == cell_at(g.cells, p));
                        }
                    }
                    lemma_same_cells(self.cells, g.cells);
                    assert forall|s: Grid| #[trigger]
                        g.solved_by(s) && tried(digits@, i + 1, digit_at(s, c)) implies listed(
                        solutions@,
                        start,
                        s,
                    ) by {
                        if tried(digits@, i as int, digit_at(s, c)) {
                            assert(listed(so_far, start, s));
                            let k = choose|k: int|
                                start <= k < so_far.len() && (#[trigger] so_far[k]).cells == s;
                            assert(solutions[k] == so_far[k]);
                        } else {
                            assert(digit_at(s, c) == Some(digit));
                            lemma_placement(g, c, digit, g2, s);
                            assert(listed(solutions@, so_far.len() as int, s));
                            let k = choose|k: int|
                                so_far.len() <= k < solutions.len() && (
                                #[trigger] solutions[k]).cells == s;
                            assert(solutions[k].cells == s);
                        }
                    }
                }
            } else {
                proof {
                    assert(branch(g, c, depth, digit) == 0);
                    assert forall|k: int| start <= k < solutions.len() implies tried(
                        digits@,
                        i + 1,
                        digit_at((#[trigger] solutions[k]).cells, c),
                    ) by {
                        let j = choose|j: int|
                            0 <= j < i && digit_at(solutions[k].cells, c) == Some(
                                #[trigger] digits@[j],
                            );
                        assert(digit_at(solutions[k].cells, c) == Some(digits@[j]));
                    }
                    assert forall|s: Grid| #[trigger]
                        g.solved_by(s) && tried(digits@, i + 1, digit_at(s, c)) implies listed(
                        solutions@,
                        start,
                        s,
                    ) by {
                        if !tried(digits@, i as int, digit_at(s, c)) {
                            assert(digit_at(s, c) == Some(digit));
                            lemma_solution_digit_is_legal(g, s, c, digit);
                        }
                    }
                }
            }
            i += 1;
        }
        proof {
            lemma_tried_among_all(g, c, depth, digits@, 9, 9);
            assert forall|s: Grid| #[trigger] g.solved_by(s) implies listed(
                solutions@,
                start,
                s,
            ) by {
                assert(g.filled_by(s, c));
                let d = digit_at(s, c)->0;
                assert(tried(digits@, 9, Some(d)));
            }
        }
        false
    }
}

} // verus!

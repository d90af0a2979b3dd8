//! The conflict check: whether a digit may go into a cell, and if not,
//! which cell stands in its way.

use vstd::prelude::*;
use crate::field::{Coords, Field, Board, in_grid, at, is_digit, comes_before};
use crate::regions::RegionId;
use crate::tally::{tally, rows_tally, row_tally};
use crate::digits::{counting, adding, least_fill, greatest_fill, lemma_fill_doubled};

verus! {

/// What a cell's content adds to a sum: its digit, or nothing.
pub open spec fn digit_value(d: Option<u8>) -> int {
    match d {
        Some(v) => v as int,
        None => 0,
    }
}

impl Board {
    /// `p` is another cell of `c`'s row and holds `d`.
    pub open spec fn row_hit(self, c: Coords, d: u8, p: Coords) -> bool {
        in_grid(p) && p.y == c.y && p.x != c.x && self.digit(p) == Some(d)
    }

    /// `p` is another cell of `c`'s column and holds `d`.
    pub open spec fn col_hit(self, c: Coords, d: u8, p: Coords) -> bool {
        in_grid(p) && p.x == c.x && p.y != c.y && self.digit(p) == Some(d)
    }

    /// `p` is another cell of `c`'s 3 by 3 box and holds `d`.
    pub open spec fn box_hit(self, c: Coords, d: u8, p: Coords) -> bool {
        in_grid(p) && p.x / 3 == c.x / 3 && p.y / 3 == c.y / 3 && p != c && self.digit(p) == Some(d)
    }

    /// `p` is another cell of `c`'s cage.
    pub open spec fn mate(self, c: Coords, p: Coords) -> bool {
        in_grid(p) && p != c && self.cages.id(p) == self.cages.id(c)
    }

    /// `p` is another cell of `c`'s cage and holds `d`.
    pub open spec fn cage_hit(self, c: Coords, d: u8, p: Coords) -> bool {
        self.mate(c, p) && self.digit(p) == Some(d)
    }

    /// The other cells of `c`'s cage.
    pub open spec fn mates(self, c: Coords) -> spec_fn(Coords) -> bool {
        |p: Coords| p != c && self.cages.id(p) == self.cages.id(c)
    }

    /// The other cells of `c`'s cage that hold no digit.
    pub open spec fn blank_mates(self, c: Coords) -> spec_fn(Coords) -> bool {
        |p: Coords| p != c && self.cages.id(p) == self.cages.id(c) && self.digit(p) is None
    }

    /// What each cell adds to a sum.
    pub open spec fn values(self) -> spec_fn(Coords) -> int {
        |p: Coords| digit_value(self.digit(p))
    }

    /// The sum of the digits in the other cells of `c`'s cage.
    pub open spec fn rest_sum(self, c: Coords) -> int {
        tally(adding(self.mates(c), self.values()))
    }

    /// How many other cells of `c`'s cage hold no digit.
    pub open spec fn rest_blanks(self, c: Coords) -> int {
        tally(counting(self.blank_mates(c)))
    }

    /// The sum required of `c`'s cage.
    pub open spec fn target(self, c: Coords) -> int {
        self.cages.sums[self.cages.id(c)] as int
    }

    /// With `d` at `c`, the cage of `c` can still reach its sum: filling its
    /// blanks with the least digits does not overshoot, and filling them
    /// with the greatest does not fall short.
    pub open spec fn within_bounds(self, c: Coords, d: u8) -> bool {
        self.rest_sum(c) + d + least_fill(self.rest_blanks(c)) <= self.target(c) <= self.rest_sum(
            c,
        ) + d + greatest_fill(self.rest_blanks(c))
    }

    /// `p` is the cell reported when the cage's sum is out of reach: the
    /// last other cell of `c`'s cage in row-major order, or `c` itself when
    /// the cage has no other cell.
    pub open spec fn last_mate(self, c: Coords, p: Coords) -> bool {
        ||| self.mate(c, p) && forall|q: Coords| #[trigger] self.mate(c, q) ==> !comes_before(p, q)
        ||| p == c && forall|q: Coords| !#[trigger] self.mate(c, q)
    }

    /// `r` is what the cage check says of `d` at `c`: nothing where no cages
    /// are in force; else the first cell of the cage, in row-major order,
    /// that already holds `d`; else, when the sum is out of reach, the last
    /// cell of the cage; else nothing.
    pub open spec fn cage_verdict(self, c: Coords, d: u8, r: Option<Coords>) -> bool {
        if !self.cages.active() {
            r is None
        } else if exists|p: Coords| #[trigger] self.cage_hit(c, d, p) {
            r matches Some(p) && self.cage_hit(c, d, p) && forall|q: Coords| #[trigger]
                self.cage_hit(c, d, q) ==> !comes_before(q, p)
        } else if !self.within_bounds(c, d) {
            r matches Some(p) && self.last_mate(c, p)
        } else {
            r is None
        }
    }

    /// `r` is what the conflict check says of `d` at `c`: the first cell
    /// of the row that holds `d`, by column; else the first of the column,
    /// by row; else the first of the box, by column and then row; else what
    /// the cage check says.
    pub open spec fn verdict(self, c: Coords, d: u8, r: Option<Coords>) -> bool {
        if exists|p: Coords| #[trigger] self.row_hit(c, d, p) {
            r matches Some(p) && self.row_hit(c, d, p) && forall|q: Coords| #[trigger]
                self.row_hit(c, d, q) ==> p.x <= q.x
        } else if exists|p: Coords| #[trigger] self.col_hit(c, d, p) {
            r matches Some(p) && self.col_hit(c, d, p) && forall|q: Coords| #[trigger]
                self.col_hit(c, d, q) ==> p.y <= q.y
        } else if exists|p: Coords| #[trigger] self.box_hit(c, d, p) {
            r matches Some(p) && self.box_hit(c, d, p) && forall|q: Coords| #[trigger]
                self.box_hit(c, d, q) ==> p.x < q.x || (p.x == q.x && p.y <= q.y)
        } else {
            self.cage_verdict(c, d, r)
        }
    }

    /// No other cell of `c`'s row, column or box holds `d`.
    pub open spec fn unopposed(self, c: Coords, d: u8) -> bool {
        &&& forall|p: Coords| !#[trigger] self.row_hit(c, d, p)
        &&& forall|p: Coords| !#[trigger] self.col_hit(c, d, p)
        &&& forall|p: Coords| !#[trigger] self.box_hit(c, d, p)
    }

    /// `d` may go into `c`: no other cell of the row, the column or the box
    /// holds it, and where cages are in force no other cell of the cage
    /// holds it and the cage's sum stays within reach.
    pub open spec fn legal(self, c: Coords, d: u8) -> bool {
        &&& self.unopposed(c, d)
        &&& self.cages.active() ==> self.within_bounds(c, d) && forall|p: Coords| !#[trigger]
            self.cage_hit(c, d, p)
    }

    /// The grid is full and sound by the classic rules: every cell holds a
    /// digit from 1 to 9 that no other cell of its row, column or box holds.
    pub open spec fn sound(self) -> bool {
        forall|p: Coords|
            in_grid(p) ==> is_digit(#[trigger] self.digit(p)) && self.unopposed(p, self.digit(p)->0)
    }

    /// How many of the digits `1..=n` may go into `c`.
    pub open spec fn legal_digits(self, c: Coords, n: int) -> int
        decreases n,
    {
        if n <= 0 {
            0
        } else {
            self.legal_digits(c, n - 1) + if self.legal(c, n as u8) {
                1int
            } else {
                0int
            }
        }
    }

    /// For each empty cell, how many of the digits 1 to 9 may go into it.
    pub open spec fn choices(self) -> spec_fn(Coords) -> int {
        |p: Coords|
            if self.digit(p) is None {
                self.legal_digits(p, 9)
            } else {
                0int
            }
    }
}

/// The conflict check has one answer: two cells that both meet `verdict`
/// are the same cell, and a digit is legal exactly when the answer is that
/// nothing stands in its way.
pub proof fn lemma_verdict_unique(b: Board, c: Coords, d: u8, r1: Option<Coords>, r2: Option<Coords>)
    requires
        in_grid(c),
        b.verdict(c, d, r1),
        b.verdict(c, d, r2),
    ensures
        r1 == r2,
        r1 is None <==> b.legal(c, d),
{
    if exists|p: Coords| #[trigger] b.row_hit(c, d, p) {
    } else if exists|p: Coords| #[trigger] b.col_hit(c, d, p) {
    } else if exists|p: Coords| #[trigger] b.box_hit(c, d, p) {
    } else if !b.cages.active() {
    } else if exists|p: Coords| #[trigger] b.cage_hit(c, d, p) {
    } else if !b.within_bounds(c, d) {
        let one = r1->0;
        let other = r2->0;
        if one != other {
            if b.mate(c, one) {
                assert(b.mate(c, other));
            } else {
                assert(!b.mate(c, other));
            }
        }
    } else {
    }
}

impl Field {
    /// The cell that keeps `digit` out of `coords`, or `None` where the
    /// digit may go there. The field is left as it was.
    pub fn find_conflict(&mut self, coords: &Coords, digit: u8) -> (r: Option<Coords>)
        requires
            in_grid(*coords),
            old(self)@.cages.consistent(),
        ensures
            *final(self) == *old(self),
            old(self)@.verdict(*coords, digit, r),
            r is None <==> old(self)@.legal(*coords, digit),
            old(self)@.cages.active() && !old(self)@.within_bounds(*coords, digit) ==> r is Some,
            r matches Some(p) ==> in_grid(p),
    {
        self.conflict(coords, digit)
    }

    /// The conflict check on a field that is only read.
    fn conflict(&self, coords: &Coords, digit: u8) -> (r: Option<Coords>)
        requires
            in_grid(*coords),
            self@.cages.consistent(),
        ensures
            self@.verdict(*coords, digit, r),
            r is None <==> self@.legal(*coords, digit),
            self@.cages.active() && !self@.within_bounds(*coords, digit) ==> r is Some,
            r matches Some(p) ==> in_grid(p),
    {
        let ghost b = self@;
        let ghost c = *coords;
        for x in 0..9u8
            invariant
                b == self@,
                c == *coords,
                in_grid(c),
                forall|p: Coords| #[trigger] b.row_hit(c, digit, p) ==> p.x >= x,
        {
            if x != coords.x {
                if let Some(cell_digit) = self.cells[coords.y as usize][x as usize].digit {
                    if cell_digit == digit {
                        let hit = Coords { x: x, y: coords.y };
                        assert(b.row_hit(c, digit, hit));
                        return Some(hit);
                    }
                }
            }
        }

        for y in 0..9u8
            invariant
                b == self@,
                c == *coords,
                in_grid(c),
                forall|p: Coords| !#[trigger] b.row_hit(c, digit, p),
                forall|p: Coords| #[trigger] b.col_hit(c, digit, p) ==> p.y >= y,
        {
            if y != coords.y {
                if let Some(cell_digit) = self.cells[y as usize][coords.x as usize].digit {
                    if cell_digit == digit {
                        let hit = Coords { x: coords.x, y: y };
                        assert(b.col_hit(c, digit, hit));
                        return Some(hit);
                    }
                }
            }
        }

        let section = Coords { x: coords.x / 3, y: coords.y / 3 };
        for x in section.x * 3..(section.x + 1) * 3
            invariant
                b == self@,
                c == *coords,
                in_grid(c),
                section.x == c.x / 3,
                section.y == c.y / 3,
                forall|p: Coords| !#[trigger] b.row_hit(c, digit, p),
                forall|p: Coords| !#[trigger] b.col_hit(c, digit, p),
                forall|p: Coords| #[trigger] b.box_hit(c, digit, p) ==> p.x >= x,
        {
            for y in section.y * 3..(section.y + 1) * 3
                invariant
                    b == self@,
                    c == *coords,
                    in_grid(c),
                    section.x == c.x / 3,
                    section.y == c.y / 3,
                    x / 3 == section.x,
                    forall|p: Coords| !#[trigger] b.row_hit(c, digit, p),
                    forall|p: Coords| !#[trigger] b.col_hit(c, digit, p),
                    forall|p: Coords|
                        #[trigger] b.box_hit(c, digit, p) ==> p.x > x || (p.x == x && p.y >= y),
            {
                if x != coords.x || y != coords.y {
                    if let Some(cell_digit) = self.cells[y as usize][x as usize].digit {
                        if cell_digit == digit {
                            let hit = Coords { x: x, y: y };
                            assert(b.box_hit(c, digit, hit));
                            return Some(hit);
                        }
                    }
                }
            }
        }

        let reg_id = self.regions.id(coords);
        match self.find_region_conflict(coords, digit, reg_id) {
            Some(clash) => {
                return Some(clash);
            },
            None => {},
        }

        None
    }

    /// The cage check alone: the cell of `coords`'s cage that keeps `digit`
    /// out of `coords`, or `None`. Where regions are in force, `reg_id` is
    /// the region of `coords`; where none is, it can be any.
    pub fn find_region_conflict(&self, coords: &Coords, digit: u8, reg_id: RegionId) -> (r: Option<
        Coords,
    >)
        requires
            in_grid(*coords),
            self@.cages.consistent(),
            self@.cages.active() ==> reg_id.0 == self@.cages.id(*coords),
        ensures
            self@.cage_verdict(*coords, digit, r),
            r matches Some(p) ==> in_grid(p),
    {
        if self.regions.sums.is_empty() {
            return None
        }
        let ghost b = self@;
        let ghost c = *coords;
        assert(b.cages.sums.contains_key(b.cages.id(c)));
        let reg_sum = *self.regions.sums.get(&reg_id.0).unwrap();
        let ghost ws = adding(b.mates(c), b.values());
        let ghost wb = counting(b.blank_mates(c));
        let mut sum: u32 = 0;
        let mut blank: u32 = 0;
        let mut last = *coords;
        for y in 0..9u8
            invariant
                b == self@,
                c == *coords,
                in_grid(c),
                reg_id.0 == b.cages.id(c),
                ws == adding(b.mates(c), b.values()),
                wb == counting(b.blank_mates(c)),
                sum == rows_tally(ws, y as int),
                blank == rows_tally(wb, y as int),
                b.cages.active(),
                sum <= 2295 * y,
                blank <= 9 * y,
                in_grid(last),
                last == c || (b.mate(c, last) && last.y < y),
                forall|q: Coords|
                    #[trigger] b.mate(c, q) && q.y < y ==> last != c && !comes_before(last, q),
                forall|q: Coords| #[trigger] b.cage_hit(c, digit, q) ==> q.y >= y,
        {
            for x in 0..9u8
                invariant
                    y < 9,
                    b == self@,
                    c == *coords,
                    in_grid(c),
                    reg_id.0 == b.cages.id(c),
                    ws == adding(b.mates(c), b.values()),
                    wb == counting(b.blank_mates(c)),
                    sum == rows_tally(ws, y as int) + row_tally(ws, y as int, x as int),
                    blank == rows_tally(wb, y as int) + row_tally(wb, y as int, x as int),
                    b.cages.active(),
                    sum <= 2295 * y + 255 * x,
                    blank <= 9 * y + x,
                    in_grid(last),
                    last == c || (b.mate(c, last) && (last.y < y || (last.y == y && last.x < x))),
                    forall|q: Coords|
                        #[trigger] b.mate(c, q) && (q.y < y || (q.y == y && q.x < x)) ==> last != c
                            && !comes_before(last, q),
                    forall|q: Coords|
                        #[trigger] b.cage_hit(c, digit, q) ==> q.y > y || (q.y == y && q.x >= x),
            {
                let here = Coords { x, y };
                assert(at(x as int, y as int) == here);
                if here == *coords {
                } else if self.regions.id(&here) == reg_id {
                    assert(b.mate(c, here));
                    last = here;
                    match self.cells[y as usize][x as usize].digit {
                        Some(v) => {
                            if v == digit {
                                assert(b.cage_hit(c, digit, here));
                                return Some(last);
                            }
                            sum += v as u32;
                        },
                        None => blank += 1,
                    }
                }
            }
        }
        proof {
            lemma_fill_doubled(blank as int);
            assert(0 <= blank * (blank + 1) <= 6642) by (nonlinear_arith)
                requires
                    0 <= blank <= 81,
            ;
            assert(-5022 <= blank * (19 - blank) <= 90) by (nonlinear_arith)
                requires
                    0 <= blank <= 81,
            ;
        }
        let total: i64 = sum as i64 + digit as i64;
        let open: i64 = blank as i64;
        let target: i64 = reg_sum as i64;
        if 2 * total + open * (open + 1) > 2 * target {
            return Some(last)
        }
        if 2 * total + open * (19 - open) < 2 * target {
            return Some(last)
        }
        None
    }

    /// How many placements are open: over the empty cells, the digits from 1
    /// to 9 that may go into each.
    pub fn count_options(&self) -> (count: u32)
        requires
            self@.cages.consistent(),
        ensures
            count == tally(self@.choices()),
            count <= 729,
    {
        let ghost b = self@;
        let ghost w = b.choices();
        let mut count: u32 = 0;
        for y in 0..9u8
            invariant
                b == self@,
                b.cages.consistent(),
                w == b.choices(),
                count == rows_tally(w, y as int),
                count <= 81 * y,
        {
            for x in 0..9u8
                invariant
                    y < 9,
                    b == self@,
                    b.cages.consistent(),
                    w == b.choices(),
                    count == rows_tally(w, y as int) + row_tally(w, y as int, x as int),
                    count <= 81 * y + 9 * x,
            {
                let here = Coords { x, y };
                assert(at(x as int, y as int) == here);
                if self.cells[y as usize][x as usize].digit.is_none() {
                    let ghost start = count;
                    for n in 1..10u8
                        invariant
                            b == self@,
                            b.cages.consistent(),
                            in_grid(here),
                            count == start + b.legal_digits(here, n - 1),
                            count <= start + n - 1,
                            start <= 81 * y + 9 * x,
                    {
                        if self.conflict(&here, n).is_none() {
                            count += 1;
                        }
                    }
                }
            }
        }
        count
    }
}

} // verus!

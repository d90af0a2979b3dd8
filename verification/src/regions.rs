//! The cage model: a partition of the grid into regions, each with the sum
//! that its digits must reach.

use std::collections::HashMap;
use vstd::prelude::*;
use crate::field::{Cell, Coords, Grid, in_grid, at, digit_at, is_digit, comes_before};
use crate::tally::{tally, rows_tally, row_tally, lemma_tally_between, lemma_tally_witness, lemma_tally_differ_at};
use crate::digits::counting;
use crate::rng::random_in;

verus! {

/// The name of a region. Numbers are handed out in increasing order and a
/// number that a merge has retired is never handed out again.
#[derive(Copy, Clone, PartialEq, Eq, Hash, Debug, Structural)]
pub struct RegionId(pub u32);

impl RegionId {
    fn incr(self) -> (next: RegionId)
        requires
            self.0 < u32::MAX,
        ensures
            next.0 == self.0 + 1,
    {
        let RegionId(i) = self;
        RegionId(i + 1)
    }
}

/// A partition of the grid: the region of every cell, the sum required of
/// every live region, and the next unused region number. With no sums at
/// all, no region constrains anything.
pub struct Regions {
    pub sums: HashMap<u32, u32>,
    pub cells: [[RegionId; 9]; 9],
    pub next_id: RegionId,
}

/// What a `Regions` value stands for.
pub struct Cages {
    pub ids: [[RegionId; 9]; 9],
    pub sums: Map<u32, u32>,
    pub next: u32,
}

impl View for Regions {
    type V = Cages;

    open spec fn view(&self) -> Cages {
        Cages { ids: self.cells, sums: self.sums@, next: self.next_id.0 }
    }
}

impl Cages {
    /// The number of the region that holds `p`.
    pub open spec fn id(self, p: Coords) -> u32 {
        self.ids[p.y as int][p.x as int].0
    }

    /// Whether any region constrains the grid.
    pub open spec fn active(self) -> bool {
        !self.sums.is_empty()
    }

    /// Every cell lies in a region that has a sum.
    pub open spec fn covered(self) -> bool {
        forall|p: Coords| in_grid(p) ==> self.sums.contains_key(#[trigger] self.id(p))
    }

    /// Every sum belongs to a region that holds a cell.
    pub open spec fn no_orphans(self) -> bool {
        forall|k: u32| #[trigger]
            self.sums.contains_key(k) ==> exists|p: Coords| in_grid(p) && #[trigger] self.id(p) == k
    }

    /// Every region number in use is below the next one to hand out.
    pub open spec fn fresh(self) -> bool {
        forall|p: Coords| in_grid(p) ==> #[trigger] self.id(p) < self.next
    }

    /// Every lookup of a cell's sum succeeds: no regions are in force, or
    /// every cell lies in a region that has a sum.
    pub open spec fn consistent(self) -> bool {
        self.active() ==> self.covered()
    }

    /// The partition is whole: inactive, or every cell in exactly one live
    /// region and every live region with a cell, all numbered below `next`.
    pub open spec fn wf(self) -> bool {
        self.active() ==> self.covered() && self.no_orphans() && self.fresh()
    }

    /// The cells of region `k`.
    pub open spec fn member(self, k: u32) -> spec_fn(Coords) -> bool {
        |p: Coords| self.id(p) == k
    }

    /// How many cells region `k` holds.
    pub open spec fn size(self, k: u32) -> int {
        tally(counting(self.member(k)))
    }

    /// Whether `p` lies outside region `k` and right next to a cell of it:
    /// above, below, left or right, within the grid.
    pub open spec fn borders(self, k: u32, p: Coords) -> bool {
        &&& self.id(p) != k
        &&& {
            ||| p.x > 0 && self.id(at(p.x - 1, p.y as int)) == k
            ||| p.y > 0 && self.id(at(p.x as int, p.y - 1)) == k
            ||| p.x < 8 && self.id(at(p.x + 1, p.y as int)) == k
            ||| p.y < 8 && self.id(at(p.x as int, p.y + 1)) == k
        }
    }

    /// `path` is a walk from `p` to `q` inside one region: every cell of it
    /// lies in the region of `p`, and each step goes to the cell above,
    /// below, left or right.
    pub open spec fn walk(self, p: Coords, q: Coords, path: Seq<Coords>) -> bool {
        &&& path.len() >= 1
        &&& path[0] == p
        &&& path[path.len() - 1] == q
        &&& forall|i: int|
            0 <= i < path.len() ==> in_grid(#[trigger] path[i]) && self.id(path[i]) == self.id(p)
        &&& forall|i: int| 0 <= i < path.len() - 1 ==> adjacent(#[trigger] path[i], path[i + 1])
    }

    /// Every region is in one piece: between any two of its cells there is
    /// a walk inside it.
    pub open spec fn contiguous(self) -> bool {
        forall|p: Coords, q: Coords|
            #![trigger self.id(p), self.id(q)]
            in_grid(p) && in_grid(q) && self.id(p) == self.id(q) ==> exists|path: Seq<Coords>|
                #[trigger] self.walk(p, q, path)
    }

    /// The region of each cell after regions `a` and `b` have become `k`.
    pub open spec fn merged_id(self, a: u32, b: u32, k: u32, p: Coords) -> u32 {
        if self.id(p) == a || self.id(p) == b {
            k
        } else {
            self.id(p)
        }
    }

    /// `after` is what merging regions `a` and `b` makes of `self`: the two
    /// sums give way to their total under the next number, which the cells
    /// of both regions take.
    pub open spec fn joined(self, a: u32, b: u32, after: Cages) -> bool {
        &&& after.next == self.next + 1
        &&& after.sums == self.sums.remove(a).remove(b).insert(
            self.next,
            (self.sums[a] + self.sums[b]) as u32,
        )
        &&& forall|p: Coords|
            in_grid(p) ==> #[trigger] after.id(p) == self.merged_id(a, b, self.next, p)
    }

    /// What merging regions `a` and `b` makes of `self`.
    pub open spec fn merged(self, a: u32, b: u32) -> Cages {
        choose|after: Cages| self.joined(a, b, after)
    }

    /// Whether the cells of regions `a` and `b` together hold no digit of
    /// `solution` twice.
    pub open spec fn joinable(self, a: u32, b: u32, solution: Grid) -> bool {
        forall|p: Coords, q: Coords|
            #![trigger self.id(p), self.id(q)]
            in_grid(p) && in_grid(q) && p != q && (self.id(p) == a || self.id(p) == b) && (self.id(
                q,
            ) == a || self.id(q) == b) ==> digit_at(solution, p) != digit_at(solution, q)
    }
}

/// Two cells of which one lies right above, below, left or right of the
/// other.
pub open spec fn adjacent(p: Coords, q: Coords) -> bool {
    ||| p.x == q.x && (p.y + 1 == q.y || q.y + 1 == p.y)
    ||| p.y == q.y && (p.x + 1 == q.x || q.x + 1 == p.x)
}

impl Clone for Regions {
    fn clone(&self) -> (r: Regions)
        ensures
            r@ == self@,
    {
        Regions { sums: self.sums.clone(), cells: self.cells, next_id: self.next_id }
    }
}

impl Regions {
    /// No regions: nothing but rows, columns and boxes constrains the grid.
    pub fn none() -> (r: Regions)
        ensures
            !r@.active(),
            r@.wf(),
            r@.sums == Map::<u32, u32>::empty(),
            r@.next == 0,
            forall|p: Coords| in_grid(p) ==> #[trigger] r@.id(p) == 0,
    {
        let sums = HashMap::new();
        let cells = [[RegionId(0); 9]; 9];
        let row_reg_id = RegionId(0);
        let regions = Regions { sums: sums, cells: cells, next_id: row_reg_id };
        regions
    }

    /// One region per row, numbered by the row, each with sum 45.
    pub fn new() -> (r: Regions)
        ensures
            r@.active(),
            r@.wf(),
            r@.next == 9,
            forall|p: Coords| in_grid(p) ==> #[trigger] r@.id(p) == p.y,
            forall|k: u32| r@.sums.contains_key(k) <==> k < 9,
            forall|k: u32| k < 9 ==> r@.sums[k] == 45,
    {
        let mut sums: HashMap<u32, u32> = HashMap::new();
        let mut cells = [[RegionId(0); 9]; 9];
        let mut row_reg_id = RegionId(0);
        for y in 0..9u8
            invariant
                row_reg_id.0 == y,
                forall|k: u32| sums@.contains_key(k) <==> k < y,
                forall|k: u32| k < y ==> sums@[k] == 45,
                forall|i: int, j: int| 0 <= i < 9 && 0 <= j < y ==> (#[trigger] cells[j][i]).0 == j,
        {
            sums.insert(row_reg_id.0, 45);
            for x in 0..9u8
                invariant
                    y < 9,
                    row_reg_id.0 == y,
                    forall|i: int, j: int|
                        0 <= i < 9 && 0 <= j < y ==> (#[trigger] cells[j][i]).0 == j,
                    forall|i: int| 0 <= i < x ==> (#[trigger] cells[y as int][i]).0 == y,
            {
                cells[y as usize][x as usize] = row_reg_id;
            }
            row_reg_id = row_reg_id.incr();
        }
        let regions = Regions { sums: sums, cells: cells, next_id: row_reg_id };
        proof {
            assert(regions@.sums.contains_key(0u32));
            assert forall|p: Coords| in_grid(p) implies #[trigger] regions@.id(p) == p.y by {
                assert(cells[p.y as int][p.x as int].0 == p.y);
            }
            assert forall|k: u32| #[trigger] regions@.sums.contains_key(k) implies exists|
                p: Coords,
            |
                in_grid(p) && #[trigger] regions@.id(p) == k by {
                let p = Coords { x: 0, y: k as u8 };
                assert(in_grid(p) && regions@.id(p) == k);
            }
        }
        regions
    }

    /// One region per cell, numbered row by row, each with the digit that
    /// `solution` holds there as its sum.
    pub fn singletons(solution: &[[Cell; 9]; 9]) -> (r: Regions)
        requires
            forall|p: Coords| in_grid(p) ==> (#[trigger] digit_at(*solution, p)) is Some,
        ensures
            r@.active(),
            r@.wf(),
            r@.next == 81,
            r@.sums.len() == 81,
            forall|p: Coords| in_grid(p) ==> #[trigger] r@.id(p) == 9 * p.y + p.x,
            forall|p: Coords|
                in_grid(p) ==> r@.sums.contains_key(r@.id(p)) && r@.sums[#[trigger] r@.id(p)]
                    == digit_at(*solution, p)->0,
    {
        let mut sums: HashMap<u32, u32> = HashMap::new();
        let mut cells = [[RegionId(0); 9]; 9];
        let mut next_id = RegionId(0);
        assert(sums@.dom().finite());
        for y in 0..9u8
            invariant
                next_id.0 == 9 * y,
                sums@.dom().finite(),
                sums@.len() == 9 * y,
                forall|p: Coords| in_grid(p) ==> (#[trigger] digit_at(*solution, p)) is Some,
                forall|k: u32| sums@.contains_key(k) <==> k < 9 * y,
                forall|p: Coords|
                    in_grid(p) && p.y < y ==> (#[trigger] cells[p.y as int][p.x as int]).0 == 9
                        * p.y + p.x,
                forall|p: Coords|
                    in_grid(p) && p.y < y ==> sums@[(9 * p.y + p.x) as u32] == (
                    #[trigger] digit_at(*solution, p))->0,
        {
            for x in 0..9u8
                invariant
                    y < 9,
                    next_id.0 == 9 * y + x,
                    sums@.dom().finite(),
                    sums@.len() == 9 * y + x,
                    forall|p: Coords| in_grid(p) ==> (#[trigger] digit_at(*solution, p)) is Some,
                    forall|k: u32| sums@.contains_key(k) <==> k < 9 * y + x,
                    forall|p: Coords|
                        in_grid(p) && (p.y < y || (p.y == y && p.x < x)) ==> (
                        #[trigger] cells[p.y as int][p.x as int]).0 == 9 * p.y + p.x,
                    forall|p: Coords|
                        in_grid(p) && (p.y < y || (p.y == y && p.x < x)) ==> sums@[(9 * p.y
                            + p.x) as u32] == (#[trigger] digit_at(*solution, p))->0,
            {
                let ghost here = Coords { x, y };
                let ghost mid = cells;
                let ghost mid_sums = sums@;
                assert(digit_at(*solution, here) is Some);
                let val = solution[y as usize][x as usize].digit.unwrap();
                sums.insert(next_id.0, val as u32);
                cells[y as usize][x as usize] = next_id;
                next_id = next_id.incr();
                assert forall|p: Coords|
                    in_grid(p) && (p.y < y || (p.y == y && p.x < x + 1)) implies (
                #[trigger] cells[p.y as int][p.x as int]).0 == 9 * p.y + p.x by {
                    if p != here {
                        assert(cells[p.y as int][p.x as int] == mid[p.y as int][p.x as int]);
                    }
                }
                assert forall|p: Coords|
                    in_grid(p) && (p.y < y || (p.y == y && p.x < x + 1)) implies sums@[(9 * p.y
                    + p.x) as u32] == (#[trigger] digit_at(*solution, p))->0 by {
                    if p != here {
                        assert(mid_sums.contains_key((9 * p.y + p.x) as u32));
                    }
                }
            }
        }
        let regions = Regions { sums: sums, cells: cells, next_id: next_id };
        proof {
            assert(regions@.sums.contains_key(0u32));
            assert forall|p: Coords| in_grid(p) implies #[trigger] regions@.id(p) == 9 * p.y
                + p.x by {
                assert(cells[p.y as int][p.x as int].0 == 9 * p.y + p.x);
            }
            assert forall|k: u32| #[trigger] regions@.sums.contains_key(k) implies exists|
                p: Coords,
            |
                in_grid(p) && #[trigger] regions@.id(p) == k by {
                let p = Coords { x: (k % 9) as u8, y: (k / 9) as u8 };
                assert(in_grid(p) && regions@.id(p) == k);
            }
        }
        regions
    }

    /// The region that holds `loc`.
    pub fn id(&self, loc: &Coords) -> (r: RegionId)
        requires
            in_grid(*loc),
        ensures
            r.0 == self@.id(*loc),
    {
        self.cells[loc.y as usize][loc.x as usize]
    }

    /// Whether every lookup of a cell's sum succeeds.
    pub fn is_consistent(&self) -> (r: bool)
        ensures
            r == self@.consistent(),
    {
        if self.sums.is_empty() {
            return true;
        }
        for y in 0..9u8
            invariant
                self@.active(),
                forall|p: Coords|
                    in_grid(p) && p.y < y ==> self@.sums.contains_key(#[trigger] self@.id(p)),
        {
            for x in 0..9u8
                invariant
                    y < 9,
                    self@.active(),
                    forall|p: Coords|
                        in_grid(p) && (p.y < y || (p.y == y && p.x < x))
                            ==> self@.sums.contains_key(#[trigger] self@.id(p)),
            {
                let here = Coords { x, y };
                if !self.sums.contains_key(&self.cells[y as usize][x as usize].0) {
                    assert(!self@.sums.contains_key(self@.id(here)));
                    return false;
                }
                assert(self@.sums.contains_key(self@.id(here)));
            }
        }
        true
    }

    /// The sum required of region `id`, if the region is live.
    pub fn sum_of(&self, id: RegionId) -> (r: Option<u32>)
        ensures
            r == if self@.sums.contains_key(id.0) {
                Some(self@.sums[id.0])
            } else {
                None
            },
    {
        match self.sums.get(&id.0) {
            Some(s) => Some(*s),
            None => None,
        }
    }

    /// Whether `loc` lies outside region `reg_id` and right next to it.
    pub fn is_neighbour(&self, reg_id: RegionId, loc: &Coords) -> (r: bool)
        requires
            in_grid(*loc),
        ensures
            r == self@.borders(reg_id.0, *loc),
    {
        reg_id != self.id(&loc) && ((loc.x > 0 && reg_id == self.id(
            &Coords { x: loc.x - 1, y: loc.y },
        )) || (loc.y > 0 && reg_id == self.id(&Coords { x: loc.x, y: loc.y - 1 })) || (loc.x < 8
            && reg_id == self.id(&Coords { x: loc.x + 1, y: loc.y })) || (loc.y < 8 && reg_id
            == self.id(&Coords { x: loc.x, y: loc.y + 1 })))
    }

    /// How many cells region `reg_id` holds.
    pub fn count_region(&self, reg_id: RegionId) -> (count: u32)
        ensures
            count == self@.size(reg_id.0),
    {
        let ghost w = counting(self@.member(reg_id.0));
        let mut count: u32 = 0;
        for y in 0..9u8
            invariant
                w == counting(self@.member(reg_id.0)),
                count == rows_tally(w, y as int),
                count <= 9 * y,
        {
            for x in 0..9u8
                invariant
                    y < 9,
                    w == counting(self@.member(reg_id.0)),
                    count == rows_tally(w, y as int) + row_tally(w, y as int, x as int),
                    count <= 9 * y + x,
            {
                assert(at(x as int, y as int) == Coords { x, y });
                if self.id(&Coords { x, y }) == reg_id {
                    count += 1;
                }
            }
        }
        count
    }

    /// Merges regions `reg_id_a` and `reg_id_b` into a new region, whose sum
    /// is the sum of theirs. Both old numbers are retired.
    pub fn join(&mut self, reg_id_a: RegionId, reg_id_b: RegionId) -> (r: RegionId)
        requires
            old(self)@.wf(),
            reg_id_a != reg_id_b,
            old(self)@.sums.contains_key(reg_id_a.0),
            old(self)@.sums.contains_key(reg_id_b.0),
            old(self)@.next < u32::MAX,
            old(self)@.sums[reg_id_a.0] + old(self)@.sums[reg_id_b.0] <= u32::MAX,
        ensures
            r.0 == old(self)@.next,
            final(self)@.next == old(self)@.next + 1,
            final(self)@.sums == old(self)@.sums.remove(reg_id_a.0).remove(reg_id_b.0).insert(
                r.0,
                (old(self)@.sums[reg_id_a.0] + old(self)@.sums[reg_id_b.0]) as u32,
            ),
            forall|p: Coords|
                in_grid(p) ==> #[trigger] final(self)@.id(p) == old(self)@.merged_id(
                    reg_id_a.0,
                    reg_id_b.0,
                    r.0,
                    p,
                ),
            old(self)@.joined(reg_id_a.0, reg_id_b.0, final(self)@),
            final(self)@ == old(self)@.merged(reg_id_a.0, reg_id_b.0),
            final(self)@.active(),
            final(self)@.wf(),
    {
        let reg_id_sum = self.next_id;
        self.next_id = self.next_id.incr();

        let reg_a_sum = self.sums.remove(&reg_id_a.0).unwrap();
        let reg_b_sum = self.sums.remove(&reg_id_b.0).unwrap();
        self.sums.insert(reg_id_sum.0, reg_a_sum + reg_b_sum);

        let ghost before = old(self)@;
        for y in 0..9u8
            invariant
                self@.sums == before.sums.remove(reg_id_a.0).remove(reg_id_b.0).insert(
                    reg_id_sum.0,
                    (before.sums[reg_id_a.0] + before.sums[reg_id_b.0]) as u32,
                ),
                self@.next == before.next + 1,
                reg_id_sum.0 == before.next,
                forall|p: Coords|
                    in_grid(p) ==> #[trigger] self@.id(p) == if p.y < y {
                        before.merged_id(reg_id_a.0, reg_id_b.0, reg_id_sum.0, p)
                    } else {
                        before.id(p)
                    },
        {
            for x in 0..9u8
                invariant
                    y < 9,
                    self@.sums == before.sums.remove(reg_id_a.0).remove(reg_id_b.0).insert(
                        reg_id_sum.0,
                        (before.sums[reg_id_a.0] + before.sums[reg_id_b.0]) as u32,
                    ),
                    self@.next == before.next + 1,
                    reg_id_sum.0 == before.next,
                    forall|p: Coords|
                        in_grid(p) ==> #[trigger] self@.id(p) == if p.y < y || (p.y == y && p.x
                            < x) {
                            before.merged_id(reg_id_a.0, reg_id_b.0, reg_id_sum.0, p)
                        } else {
                            before.id(p)
                        },
            {
                let ghost here = Coords { x, y };
                let ghost mid = self@;
                assert(mid.id(here) == before.id(here));
                let id = self.cells[y as usize][x as usize];
                if id == reg_id_a || id == reg_id_b {
                    self.cells[y as usize][x as usize] = reg_id_sum;
                }
                assert forall|p: Coords| in_grid(p) implies #[trigger] self@.id(p) == if p.y < y
                    || (p.y == y && p.x < x + 1) {
                    before.merged_id(reg_id_a.0, reg_id_b.0, reg_id_sum.0, p)
                } else {
                    before.id(p)
                } by {
                    if p != here {
                        assert(self@.id(p) == mid.id(p));
                    }
                }
            }
        }
        proof {
            let after = self@;
            assert(after.sums.contains_key(reg_id_sum.0));
            assert(before.active()) by {
                assert(before.sums.dom().contains(reg_id_a.0));
            }
            assert forall|k: u32| #[trigger] after.sums.contains_key(k) implies exists|p: Coords|
                in_grid(p) && #[trigger] after.id(p) == k by {
                let from = if k == reg_id_sum.0 {
                    reg_id_a.0
                } else {
                    k
                };
                assert(before.sums.contains_key(from));
                let p = choose|p: Coords| in_grid(p) && #[trigger] before.id(p) == from;
                assert(after.id(p) == k);
            }
            assert forall|p: Coords| in_grid(p) implies after.sums.contains_key(
                #[trigger] after.id(p),
            ) by {
                assert(before.sums.contains_key(before.id(p)));
            }
            assert forall|p: Coords| in_grid(p) implies #[trigger] after.id(p) < after.next by {
                assert(before.id(p) < before.next);
            }
            assert(before.joined(reg_id_a.0, reg_id_b.0, after));
            lemma_joined_once(before, reg_id_a.0, reg_id_b.0, after, before.merged(
                reg_id_a.0,
                reg_id_b.0,
            ));
        }
        reg_id_sum
    }

    /// Takes the cell `loc`, which is to hold `val`, out of its region and
    /// makes it a region of its own with sum `val`; the old region's sum
    /// drops by `val`. A region of one cell is left as it is.
    pub fn remove(&mut self, loc: Coords, val: u32) -> (r: RegionId)
        requires
            in_grid(loc),
            old(self)@.active(),
            old(self)@.wf(),
            old(self)@.next < u32::MAX,
            old(self)@.sums[old(self)@.id(loc)] >= val,
            old(self)@.sums[old(self)@.id(loc)] == val <==> old(self)@.size(old(self)@.id(loc))
                == 1,
        ensures
            final(self)@.active(),
            final(self)@.wf(),
            old(self)@.sums[old(self)@.id(loc)] == val ==> final(self)@ == old(self)@ && r.0
                == old(self)@.id(loc),
            old(self)@.sums[old(self)@.id(loc)] != val ==> {
                &&& r.0 == old(self)@.next
                &&& final(self)@.next == old(self)@.next + 1
                &&& final(self)@.sums == old(self)@.sums.insert(
                    old(self)@.id(loc),
                    (old(self)@.sums[old(self)@.id(loc)] - val) as u32,
                ).insert(r.0, val)
                &&& final(self)@.id(loc) == r.0
                &&& forall|p: Coords|
                    in_grid(p) && p != loc ==> #[trigger] final(self)@.id(p) == old(self)@.id(p)
            },
    {
        let reg_id = self.id(&loc);
        let ghost before = self@;
        proof {
            assert(before.sums.contains_key(before.id(loc)));
        }
        let sum = *self.sums.get(&reg_id.0).unwrap();
        if sum == val {
            return reg_id;
        }
        self.sums.insert(reg_id.0, sum - val);

        let new_reg_id = self.next_id;
        self.next_id = self.next_id.incr();

        self.sums.insert(new_reg_id.0, val);
        self.cells[loc.y as usize][loc.x as usize] = new_reg_id;
        proof {
            let after = self@;
            assert(after.sums.contains_key(new_reg_id.0));
            assert forall|p: Coords| in_grid(p) && p != loc implies #[trigger] after.id(p)
                == before.id(p) by {}
            assert forall|p: Coords| in_grid(p) implies after.sums.contains_key(
                #[trigger] after.id(p),
            ) by {
                assert(before.sums.contains_key(before.id(p)));
            }
            assert forall|p: Coords| in_grid(p) implies #[trigger] after.id(p) < after.next by {
                assert(before.id(p) < before.next);
            }
            let other = lemma_second_member(before, loc);
            assert forall|k: u32| #[trigger] after.sums.contains_key(k) implies exists|p: Coords|
                in_grid(p) && #[trigger] after.id(p) == k by {
                if k == new_reg_id.0 {
                    assert(after.id(loc) == k);
                } else if k == reg_id.0 {
                    assert(after.id(other) == k);
                } else {
                    assert(before.sums.contains_key(k));
                    let p = choose|p: Coords| in_grid(p) && #[trigger] before.id(p) == k;
                    assert(after.id(p) == k);
                }
            }
        }
        new_reg_id
    }

    /// The cells outside region `reg_id` that lie right next to it, in
    /// row-major order.
    pub fn neighbours(&self, reg_id: RegionId) -> (vec: Vec<Coords>)
        ensures
            forall|i: int|
                0 <= i < vec.len() ==> in_grid(#[trigger] vec[i]) && self@.borders(
                    reg_id.0,
                    vec[i],
                ),
            forall|p: Coords|
                in_grid(p) && #[trigger] self@.borders(reg_id.0, p) ==> vec@.contains(p),
            forall|i: int, j: int|
                0 <= i < j < vec.len() ==> comes_before(#[trigger] vec[i], #[trigger] vec[j]),
    {
        let mut vec: Vec<Coords> = Vec::new();
        for y in 0..9u8
            invariant
                forall|i: int|
                    0 <= i < vec.len() ==> in_grid(#[trigger] vec[i]) && self@.borders(
                        reg_id.0,
                        vec[i],
                    ) && vec[i].y < y,
                forall|p: Coords|
                    in_grid(p) && p.y < y && #[trigger] self@.borders(reg_id.0, p)
                        ==> vec@.contains(p),
                forall|i: int, j: int|
                    0 <= i < j < vec.len() ==> comes_before(#[trigger] vec[i], #[trigger] vec[j]),
        {
            for x in 0..9u8
                invariant
                    y < 9,
                    forall|i: int|
                        0 <= i < vec.len() ==> in_grid(#[trigger] vec[i]) && self@.borders(
                            reg_id.0,
                            vec[i],
                        ) && (vec[i].y < y || (vec[i].y == y && vec[i].x < x)),
                    forall|p: Coords|
                        in_grid(p) && (p.y < y || (p.y == y && p.x < x)) && #[trigger] self@.borders(
                            reg_id.0,
                            p,
                        ) ==> vec@.contains(p),
                    forall|i: int, j: int|
                        0 <= i < j < vec.len() ==> comes_before(
                            #[trigger] vec[i],
                            #[trigger] vec[j],
                        ),
            {
                let coords = Coords { x, y };
                if self.is_neighbour(reg_id, &coords) {
                    let ghost prev = vec@;
                    vec.push(coords);
                    proof {
                        assert(vec@[prev.len() as int] == coords);
                        assert forall|p: Coords|
                            in_grid(p) && (p.y < y || (p.y == y && p.x < x + 1))
                                && #[trigger] self@.borders(reg_id.0, p) implies vec@.contains(
                            p,
                        ) by {
                            if p == coords {
                            } else {
                                assert(prev.contains(p));
                                let i = choose|i: int| 0 <= i < prev.len() && prev[i] == p;
                                assert(vec@[i] == p);
                            }
                        }
                    }
                }
            }
        }
        vec
    }

    /// One of the cells outside region `reg_id` that lie right next to it,
    /// picked at random.
    pub fn random_neighbour(&self, reg_id: RegionId) -> (r: Coords)
        requires
            exists|p: Coords| in_grid(p) && #[trigger] self@.borders(reg_id.0, p),
        ensures
            in_grid(r),
            self@.borders(reg_id.0, r),
    {
        let vec = self.neighbours(reg_id);
        proof {
            let p = choose|p: Coords| in_grid(p) && #[trigger] self@.borders(reg_id.0, p);
            assert(vec@.contains(p));
        }
        let idx = random_in(0, vec.len());
        vec[idx]
    }

    /// Whether regions `reg_id_a` and `reg_id_b` can become one cage: their
    /// cells together hold no digit of `solution` twice.
    pub fn can_regions_join(
        &self,
        reg_id_a: RegionId,
        reg_id_b: RegionId,
        solution: &[[Cell; 9]; 9],
    ) -> (r: bool)
        requires
            forall|p: Coords|
                in_grid(p) && (self@.id(p) == reg_id_a.0 || self@.id(p) == reg_id_b.0) ==> is_digit(
                    #[trigger] digit_at(*solution, p),
                ),
        ensures
            r == self@.joinable(reg_id_a.0, reg_id_b.0, *solution),
    {
        let mut check = [false;9];
        let ghost a = reg_id_a.0;
        let ghost b = reg_id_b.0;
        for y in 0..9u8
            invariant
                a == reg_id_a.0,
                b == reg_id_b.0,
                forall|p: Coords|
                    in_grid(p) && (self@.id(p) == a || self@.id(p) == b) ==> is_digit(
                        #[trigger] digit_at(*solution, p),
                    ),
                forall|v: int|
                    1 <= v <= 9 ==> (#[trigger] check[v - 1] <==> exists|p: Coords|
                        in_grid(p) && p.y < y && (self@.id(p) == a || self@.id(p) == b)
                            && #[trigger] digit_at(*solution, p) == Some(v as u8)),
                forall|p: Coords, q: Coords|
                    #![trigger self@.id(p), self@.id(q)]
                    in_grid(p) && in_grid(q) && p != q && p.y < y && q.y < y && (self@.id(p) == a
                        || self@.id(p) == b) && (self@.id(q) == a || self@.id(q) == b)
                        ==> digit_at(*solution, p) != digit_at(*solution, q),
        {
            for x in 0..9u8
                invariant
                    y < 9,
                    a == reg_id_a.0,
                    b == reg_id_b.0,
                    forall|p: Coords|
                        in_grid(p) && (self@.id(p) == a || self@.id(p) == b) ==> is_digit(
                            #[trigger] digit_at(*solution, p),
                        ),
                    forall|v: int|
                        1 <= v <= 9 ==> (#[trigger] check[v - 1] <==> exists|p: Coords|
                            in_grid(p) && (p.y < y || (p.y == y && p.x < x)) && (self@.id(p) == a
                                || self@.id(p) == b) && #[trigger] digit_at(*solution, p) == Some(
                                v as u8,
                            )),
                    forall|p: Coords, q: Coords|
                        #![trigger self@.id(p), self@.id(q)]
                        in_grid(p) && in_grid(q) && p != q && (p.y < y || (p.y == y && p.x < x))
                            && (q.y < y || (q.y == y && q.x < x)) && (self@.id(p) == a || self@.id(
                            p,
                        ) == b) && (self@.id(q) == a || self@.id(q) == b) ==> digit_at(
                            *solution,
                            p,
                        ) != digit_at(*solution, q),
            {
                let c = Coords { x, y };
                if self.id(&c) == reg_id_a || self.id(&c) == reg_id_b {
                    assert(digit_at(*solution, c) is Some);
                    match solution[y as usize][x as usize].digit {
                        Some(v) => {
                            if check[v as usize - 1] {
                                proof {
                                    assert(check[v as int - 1]);
                                    let p = choose|p: Coords|
                                        in_grid(p) && (p.y < y || (p.y == y && p.x < x)) && (
                                        self@.id(p) == a || self@.id(p) == b)
                                            && #[trigger] digit_at(*solution, p) == Some(v);
                                    assert(p != c);
                                }
                                return false;
                            }
                            let ghost prev = check;
                            check[v as usize - 1] = true;
                            proof {
                                assert forall|w: int| 1 <= w <= 9 implies (#[trigger] check[w - 1]
                                    <==> exists|p: Coords|
                                    in_grid(p) && (p.y < y || (p.y == y && p.x < x + 1)) && (
                                    self@.id(p) == a || self@.id(p) == b) && #[trigger] digit_at(
                                        *solution,
                                        p,
                                    ) == Some(w as u8)) by {
                                    if w == v {
                                        assert(digit_at(*solution, c) == Some(w as u8));
                                    } else {
                                        assert(check[w - 1] == prev[w - 1]);
                                        if prev[w - 1] {
                                            let p = choose|p: Coords|
                                                in_grid(p) && (p.y < y || (p.y == y && p.x < x))
                                                    && (self@.id(p) == a || self@.id(p) == b)
                                                    && #[trigger] digit_at(*solution, p) == Some(
                                                    w as u8,
                                                );
                                            assert(digit_at(*solution, p) == Some(w as u8));
                                        }
                                    }
                                }
                                assert forall|p: Coords, q: Coords|
                                    #![trigger self@.id(p), self@.id(q)]
                                    in_grid(p) && in_grid(q) && p != q && (p.y < y || (p.y == y
                                        && p.x < x + 1)) && (q.y < y || (q.y == y && q.x < x + 1))
                                        && (self@.id(p) == a || self@.id(p) == b) && (self@.id(q)
                                        == a || self@.id(q) == b) implies digit_at(*solution, p)
                                    != digit_at(*solution, q) by {
                                    if p == c {
                                        assert(!prev[v as int - 1]);
                                        assert(digit_at(*solution, q) != Some(v));
                                    } else if q == c {
                                        assert(!prev[v as int - 1]);
                                        assert(digit_at(*solution, p) != Some(v));
                                    }
                                }
                            }
                        },
                        None => {},
                    }
                }
            }
        }
        true
    }
}

/// A region of more than one cell has a cell other than `loc`.
proof fn lemma_second_member(cages: Cages, loc: Coords) -> (p: Coords)
    requires
        in_grid(loc),
        cages.size(cages.id(loc)) != 1,
    ensures
        in_grid(p),
        p != loc,
        cages.id(p) == cages.id(loc),
{
    let k = cages.id(loc);
    let w = counting(cages.member(k));
    let rest = |p: Coords|
        if p == loc {
            0int
        } else {
            w(p)
        };
    lemma_tally_differ_at(w, rest, loc);
    assert(tally(w) - tally(rest) == 1);
    lemma_tally_between(rest, 0, 1);
    lemma_tally_witness(rest)
}

proof fn lemma_row_walk(cages: Cages, k: u32, y: int, x1: int, x2: int) -> (n: Coords)
    requires
        0 <= y < 9,
        0 <= x1 < 9,
        0 <= x2 < 9,
        cages.id(at(x1, y)) == k,
        cages.id(at(x2, y)) != k,
    ensures
        in_grid(n),
        cages.borders(k, n),
    decreases
            if x1 < x2 {
                x2 - x1
            } else {
                x1 - x2
            },
{
    let step = if x1 < x2 {
        x2 - 1
    } else {
        x2 + 1
    };
    if cages.id(at(step, y)) == k {
        at(x2, y)
    } else {
        lemma_row_walk(cages, k, y, x1, step)
    }
}

proof fn lemma_column_walk(cages: Cages, k: u32, x: int, y1: int, y2: int) -> (n: Coords)
    requires
        0 <= x < 9,
        0 <= y1 < 9,
        0 <= y2 < 9,
        cages.id(at(x, y1)) == k,
        cages.id(at(x, y2)) != k,
    ensures
        in_grid(n),
        cages.borders(k, n),
    decreases
            if y1 < y2 {
                y2 - y1
            } else {
                y1 - y2
            },
{
    let step = if y1 < y2 {
        y2 - 1
    } else {
        y2 + 1
    };
    if cages.id(at(x, step)) == k {
        at(x, y2)
    } else {
        lemma_column_walk(cages, k, x, y1, step)
    }
}

/// A region that holds a cell, but not every cell, has a cell right next
/// to it: on the way from a cell inside to a cell outside, along the row and
/// then the column, some step leaves the region.
pub proof fn lemma_border_exists(cages: Cages, k: u32, inside: Coords, outside: Coords) -> (n:
    Coords)
    requires
        in_grid(inside),
        in_grid(outside),
        cages.id(inside) == k,
        cages.id(outside) != k,
    ensures
        in_grid(n),
        cages.borders(k, n),
{
    let corner = at(outside.x as int, inside.y as int);
    assert(at(inside.x as int, inside.y as int) == inside);
    assert(at(outside.x as int, outside.y as int) == outside);
    if cages.id(corner) != k {
        lemma_row_walk(cages, k, inside.y as int, inside.x as int, outside.x as int)
    } else {
        lemma_column_walk(cages, k, outside.x as int, inside.y as int, outside.y as int)
    }
}

/// A cell that borders a region has a cell of the region right next to it.
pub proof fn lemma_border_touches(cages: Cages, k: u32, n: Coords) -> (m: Coords)
    requires
        in_grid(n),
        cages.borders(k, n),
    ensures
        in_grid(m),
        cages.id(m) == k,
        adjacent(m, n),
{
    if n.x > 0 && cages.id(at(n.x - 1, n.y as int)) == k {
        at(n.x - 1, n.y as int)
    } else if n.y > 0 && cages.id(at(n.x as int, n.y - 1)) == k {
        at(n.x as int, n.y - 1)
    } else if n.x < 8 && cages.id(at(n.x + 1, n.y as int)) == k {
        at(n.x + 1, n.y as int)
    } else {
        at(n.x as int, n.y + 1)
    }
}

/// Regions of one cell each are in one piece.
pub proof fn lemma_singletons_contiguous(cages: Cages)
    requires
        forall|p: Coords| in_grid(p) ==> #[trigger] cages.id(p) == 9 * p.y + p.x,
    ensures
        cages.contiguous(),
{
    assert forall|p: Coords, q: Coords|
        #![trigger cages.id(p), cages.id(q)]
        in_grid(p) && in_grid(q) && cages.id(p) == cages.id(q) implies exists|path: Seq<Coords>|
        #[trigger] cages.walk(p, q, path) by {
        assert(p == q);
        assert(cages.walk(p, q, seq![p]));
    }
}

/// A walk stays a walk under a renumbering that keeps its region together.
proof fn lemma_walk_survives(before: Cages, after: Cages, p: Coords, q: Coords, path: Seq<Coords>)
    requires
        before.walk(p, q, path),
        forall|c: Coords|
            in_grid(c) && before.id(c) == before.id(p) ==> #[trigger] after.id(c) == after.id(p),
    ensures
        after.walk(p, q, path),
{
    assert forall|i: int| 0 <= i < path.len() implies in_grid(#[trigger] path[i]) && after.id(
        path[i],
    ) == after.id(p) by {
        assert(before.id(path[i]) == before.id(p));
    }
}

/// Two walks in one region, the second starting right next to where the
/// first ends, make one walk.
proof fn lemma_walks_join(
    cages: Cages,
    p: Coords,
    near: Coords,
    far: Coords,
    q: Coords,
    first: Seq<Coords>,
    second: Seq<Coords>,
)
    requires
        cages.walk(p, near, first),
        cages.walk(far, q, second),
        cages.id(p) == cages.id(far),
        adjacent(near, far),
    ensures
        cages.walk(p, q, first + second),
{
    let path = first + second;
    assert forall|i: int| 0 <= i < path.len() implies in_grid(#[trigger] path[i]) && cages.id(
        path[i],
    ) == cages.id(p) by {
        if i < first.len() {
            assert(path[i] == first[i]);
        } else {
            assert(path[i] == second[i - first.len()]);
        }
    }
    assert forall|i: int| 0 <= i < path.len() - 1 implies adjacent(
        #[trigger] path[i],
        path[i + 1],
    ) by {
        if i < first.len() - 1 {
            assert(path[i] == first[i] && path[i + 1] == first[i + 1]);
        } else if i == first.len() - 1 {
            assert(path[i] == first[i] && path[i + 1] == second[0]);
        } else {
            let j = i - first.len();
            assert(path[i] == second[j] && path[i + 1] == second[j + 1]);
            assert(adjacent(second[j], second[j + 1]));
        }
    }
    assert(path[0] == first[0]);
    assert(path[path.len() - 1] == second[second.len() - 1]);
}

/// Merging two regions that touch leaves every region in one piece.
pub proof fn lemma_join_keeps_contiguous(
    before: Cages,
    after: Cages,
    a: u32,
    b: u32,
    k: u32,
    m: Coords,
    n: Coords,
)
    requires
        before.contiguous(),
        in_grid(m),
        in_grid(n),
        before.id(m) == a,
        before.id(n) == b,
        adjacent(m, n),
        forall|p: Coords| in_grid(p) ==> #[trigger] before.id(p) != k,
        forall|p: Coords| in_grid(p) ==> #[trigger] after.id(p) == before.merged_id(a, b, k, p),
    ensures
        after.contiguous(),
{
    assert forall|p: Coords, q: Coords|
        #![trigger after.id(p), after.id(q)]
        in_grid(p) && in_grid(q) && after.id(p) == after.id(q) implies exists|path: Seq<Coords>|
        #[trigger] after.walk(p, q, path) by {
        lemma_joined_cells_walk(before, after, a, b, k, m, n, p, q);
    }
}

/// The walk between two cells that share a region once `a` and `b` have
/// become `k`.
proof fn lemma_joined_cells_walk(
    before: Cages,
    after: Cages,
    a: u32,
    b: u32,
    k: u32,
    m: Coords,
    n: Coords,
    p: Coords,
    q: Coords,
)
    requires
        before.contiguous(),
        in_grid(m),
        in_grid(n),
        before.id(m) == a,
        before.id(n) == b,
        adjacent(m, n),
        forall|c: Coords| in_grid(c) ==> #[trigger] before.id(c) != k,
        forall|c: Coords| in_grid(c) ==> #[trigger] after.id(c) == before.merged_id(a, b, k, c),
        in_grid(p),
        in_grid(q),
        after.id(p) == after.id(q),
    ensures
        exists|path: Seq<Coords>| #[trigger] after.walk(p, q, path),
{
    assert(before.id(p) != k && before.id(q) != k);
    assert(before.id(m) != k && before.id(n) != k);
    assert(after.id(m) == k && after.id(n) == k);
    if before.id(p) == before.id(q) {
        let path = choose|path: Seq<Coords>| #[trigger] before.walk(p, q, path);
        lemma_walk_survives(before, after, p, q, path);
    } else {
        // One cell lies in each of the merged regions: walk to the place
        // where they touch, step across, and walk on.
        let near = if before.id(p) == a {
            m
        } else {
            n
        };
        let far = if before.id(p) == a {
            n
        } else {
            m
        };
        assert(before.id(p) == before.id(near) && before.id(far) == before.id(q));
        let first = choose|path: Seq<Coords>| #[trigger] before.walk(p, near, path);
        let second = choose|path: Seq<Coords>| #[trigger] before.walk(far, q, path);
        lemma_walk_survives(before, after, p, near, first);
        lemma_walk_survives(before, after, far, q, second);
        lemma_walks_join(after, p, near, far, q, first, second);
    }
}

/// Partitions that number every cell alike, with the same sums and the
/// same next number, are the same partition.
pub proof fn lemma_same_cages(x: Cages, y: Cages)
    requires
        x.sums == y.sums,
        x.next == y.next,
        forall|p: Coords| in_grid(p) ==> #[trigger] x.id(p) == y.id(p),
    ensures
        x == y,
{
    assert forall|j: int| 0 <= j < 9 implies x.ids[j] == y.ids[j] by {
        assert forall|i: int| 0 <= i < 9 implies x.ids[j][i] == y.ids[j][i] by {
            let p = at(i, j);
            assert(in_grid(p));
            assert(x.id(p) == y.id(p));
        }
        assert(x.ids[j] =~= y.ids[j]);
    }
    assert(x.ids =~= y.ids);
}

/// Merging two regions has one outcome.
pub proof fn lemma_joined_once(before: Cages, a: u32, b: u32, x: Cages, y: Cages)
    requires
        before.joined(a, b, x),
    ensures
        before.joined(a, b, before.merged(a, b)),
        before.joined(a, b, y) ==> x == y,
        before.merged(a, b) == x,
{
    if before.joined(a, b, y) {
        lemma_same_cages(x, y);
    }
    let m = before.merged(a, b);
    assert(before.joined(a, b, m));
    lemma_same_cages(x, m);
}

/// Merging two live regions of a whole partition leaves it whole, with one
/// region fewer: every cell still lies in exactly one live region and every
/// live region still has a cell.
pub proof fn lemma_join_keeps_partition(before: Cages, a: u32, b: u32, after: Cages)
    requires
        before.wf(),
        before.sums.dom().finite(),
        a != b,
        before.sums.contains_key(a),
        before.sums.contains_key(b),
        before.joined(a, b, after),
    ensures
        after.active(),
        after.wf(),
        after.sums.len() == before.sums.len() - 1,
{
    let k = before.next;
    assert(after.sums.contains_key(k));
    assert(before.active()) by {
        assert(before.sums.dom().contains(a));
    }
    assert forall|j: u32| #[trigger] after.sums.contains_key(j) implies exists|p: Coords|
        in_grid(p) && #[trigger] after.id(p) == j by {
        let from = if j == k {
            a
        } else {
            j
        };
        assert(before.sums.contains_key(from));
        let p = choose|p: Coords| in_grid(p) && #[trigger] before.id(p) == from;
        assert(after.id(p) == j);
    }
    assert forall|p: Coords| in_grid(p) implies after.sums.contains_key(#[trigger] after.id(p)) by {
        assert(before.sums.contains_key(before.id(p)));
    }
    assert forall|p: Coords| in_grid(p) implies #[trigger] after.id(p) < after.next by {
        assert(before.id(p) < before.next);
    }
    let d0 = before.sums.dom();
    assert(!d0.contains(k)) by {
        if d0.contains(k) {
            assert(before.sums.contains_key(k));
            let p = choose|p: Coords| in_grid(p) && #[trigger] before.id(p) == k;
            assert(before.id(p) < before.next);
        }
    }
    assert(after.sums.dom() =~= d0.remove(a).remove(b).insert(k));
}

} // verus!

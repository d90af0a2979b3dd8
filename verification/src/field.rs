//! The grid model: coordinates, cells and the 9 by 9 array that holds them.

use vstd::prelude::*;
use vstd::array::spec_array_update;
use crate::regions::{Regions, Cages};
use crate::tally::{tally, rows_tally, row_tally};
use crate::digits::counting;

verus! {

/// The position of one of the 81 cells: column `x` and row `y`, each in `0..9`.
#[derive(Copy, Clone, PartialEq, Eq, Hash, Debug, Structural)]
pub struct Coords {
    pub x: u8,
    pub y: u8,
}

/// One cell: the digit it holds, if any, and whether it is a given.
#[derive(Copy, Clone, Debug)]
pub struct Cell {
    pub digit: Option<u8>,
    pub fixed: bool,
}

/// How a cell next to a region relates to it.
#[allow(dead_code)]
pub enum Neighbour {
    In,
    Out,
    OutOfBounds,
}

/// Nine rows of nine cells; `grid[y][x]` is the cell in column `x` of row `y`.
pub type Grid = [[Cell; 9]; 9];

/// Whether `p` names a cell of the grid.
pub open spec fn in_grid(p: Coords) -> bool {
    p.x < 9 && p.y < 9
}

/// The coordinates of column `x` in row `y`.
pub open spec fn at(x: int, y: int) -> Coords {
    Coords { x: x as u8, y: y as u8 }
}

/// The digit that `g` holds at `p`.
pub open spec fn digit_at(g: Grid, p: Coords) -> Option<u8> {
    g[p.y as int][p.x as int].digit
}

/// Whether a cell's content is one of the digits 1 to 9.
pub open spec fn is_digit(d: Option<u8>) -> bool {
    d matches Some(v) && 1 <= v <= 9
}

/// Row-major order on coordinates: `p` is scanned strictly before `q`.
pub open spec fn comes_before(p: Coords, q: Coords) -> bool {
    p.y < q.y || (p.y == q.y && p.x < q.x)
}

/// The cell of `g` at `p`.
pub open spec fn cell_at(g: Grid, p: Coords) -> Cell {
    g[p.y as int][p.x as int]
}

/// `after` is `before` with the cell at `c` replaced by `cell` and nothing
/// else touched.
pub open spec fn replaced(before: Grid, c: Coords, cell: Cell, after: Grid) -> bool {
    &&& cell_at(after, c) == cell
    &&& forall|p: Coords| in_grid(p) && p != c ==> #[trigger] cell_at(after, p) == cell_at(before, p)
}

/// Grids that hold the same cell at every position are the same grid.
pub proof fn lemma_same_cells(g1: Grid, g2: Grid)
    requires
        forall|p: Coords| in_grid(p) ==> #[trigger] cell_at(g1, p) == cell_at(g2, p),
    ensures
        g1 == g2,
{
    assert forall|y: int| 0 <= y < 9 implies g1[y] == g2[y] by {
        assert forall|x: int| 0 <= x < 9 implies g1[y][x] == g2[y][x] by {
            let p = at(x, y);
            assert(in_grid(p));
            assert(cell_at(g1, p) == cell_at(g2, p));
        }
        assert(g1[y] =~= g2[y]);
    }
    assert(g1 =~= g2);
}

/// The grid `g` with `cell` at `c`.
pub open spec fn with_cell(g: Grid, c: Coords, cell: Cell) -> Grid {
    spec_array_update(g, c.y as int, spec_array_update(g[c.y as int], c.x as int, cell))
}

/// `with_cell` replaces the cell at `c` and touches nothing else; and a grid
/// that differs from `g` in just that way is `with_cell`.
pub proof fn lemma_with_cell(g: Grid, c: Coords, cell: Cell, after: Grid)
    requires
        in_grid(c),
    ensures
        replaced(g, c, cell, with_cell(g, c, cell)),
        replaced(g, c, cell, after) ==> after == with_cell(g, c, cell),
{
    let row = spec_array_update(g[c.y as int], c.x as int, cell);
    let made = with_cell(g, c, cell);
    assert(row@ == g[c.y as int]@.update(c.x as int, cell));
    assert(made@ == g@.update(c.y as int, row));
    assert(cell_at(made, c) == cell) by {
        assert(made[c.y as int] == row);
        assert(row[c.x as int] == cell);
    }
    assert forall|p: Coords| in_grid(p) && p != c implies #[trigger] cell_at(made, p) == cell_at(
        g,
        p,
    ) by {
        if p.y == c.y {
            assert(made[p.y as int] == row);
            assert(row[p.x as int] == g[c.y as int][p.x as int]);
        } else {
            assert(made[p.y as int] == g[p.y as int]);
        }
    }
    if replaced(g, c, cell, after) {
        assert forall|p: Coords| in_grid(p) implies #[trigger] cell_at(after, p) == cell_at(
            made,
            p,
        ) by {}
        lemma_same_cells(after, made);
    }
}

/// Removing a digit and putting the same digit back at the same cell leaves
/// the grid as it was.
pub proof fn lemma_remove_restore(g: Grid, c: Coords, emptied: Grid, restored: Grid)
    requires
        in_grid(c),
        replaced(g, c, Cell { digit: None, fixed: cell_at(g, c).fixed }, emptied),
        replaced(emptied, c, Cell { digit: cell_at(g, c).digit, fixed: cell_at(emptied, c).fixed }, restored),
    ensures
        restored == g,
{
    assert forall|p: Coords| in_grid(p) implies #[trigger] cell_at(restored, p) == cell_at(
        g,
        p,
    ) by {
        if p != c {
            assert(cell_at(emptied, p) == cell_at(g, p));
        }
    }
    lemma_same_cells(restored, g);
}

/// A puzzle in play: the grid and the cages that constrain it.
pub struct Field {
    pub cells: [[Cell; 9]; 9],
    pub regions: Regions,
}

/// What a `Field` stands for: its grid and the partition behind its regions.
pub struct Board {
    pub cells: Grid,
    pub cages: Cages,
}

impl View for Field {
    type V = Board;

    open spec fn view(&self) -> Board {
        Board { cells: self.cells, cages: self.regions@ }
    }
}

impl Clone for Field {
    fn clone(&self) -> (r: Field)
        ensures
            r@ == self@,
    {
        Field { cells: self.cells, regions: self.regions.clone() }
    }
}

impl Board {
    /// The digit at `p`.
    pub open spec fn digit(self, p: Coords) -> Option<u8> {
        digit_at(self.cells, p)
    }

    /// The cells that hold no digit.
    pub open spec fn vacant(self) -> spec_fn(Coords) -> bool {
        |p: Coords| digit_at(self.cells, p) is None
    }

    /// How many cells hold no digit.
    pub open spec fn blanks(self) -> int {
        tally(counting(self.vacant()))
    }

    /// The board with `d` in the cell at `c`, a given if it was one.
    pub open spec fn with_digit(self, c: Coords, d: Option<u8>) -> Board {
        Board {
            cells: with_cell(
                self.cells,
                c,
                Cell { digit: d, fixed: cell_at(self.cells, c).fixed },
            ),
            cages: self.cages,
        }
    }

    /// `c` is the first empty cell in row-major order.
    pub open spec fn is_first_blank(self, c: Coords) -> bool {
        &&& in_grid(c)
        &&& self.digit(c) is None
        &&& forall|p: Coords| in_grid(p) && comes_before(p, c) ==> (#[trigger] self.digit(p)) is Some
    }

    /// The first empty cell in row-major order, where there is one.
    pub open spec fn first_blank(self) -> Coords {
        choose|c: Coords| self.is_first_blank(c)
    }

    /// Whether every cell holds a digit.
    pub open spec fn complete(self) -> bool {
        forall|p: Coords| in_grid(p) ==> (#[trigger] self.digit(p)) is Some
    }
}

impl Field {
    /// How many cells hold no digit.
    pub fn count_empty(&self) -> (count: u32)
        ensures
            count == self@.blanks(),
            count <= 81,
    {
        let ghost w = counting(self@.vacant());
        let mut count: u32 = 0;
        for y in 0..9u8
            invariant
                w == counting(self@.vacant()),
                count == rows_tally(w, y as int),
                count <= 9 * y,
        {
            for x in 0..9u8
                invariant
                    y < 9,
                    w == counting(self@.vacant()),
                    count == rows_tally(w, y as int) + row_tally(w, y as int, x as int),
                    count <= 9 * y + x,
            {
                assert(at(x as int, y as int) == Coords { x, y });
                if self.cells[y as usize][x as usize].digit.is_none() {
                    count += 1;
                }
            }
        }
        count
    }

    /// The cell in column `x` of row `y`, to read or to change in place.
    pub fn get_cell(&mut self, x: u8, y: u8) -> (cell: &mut Cell)
        requires
            x < 9,
            y < 9,
        ensures
            *cell == cell_at(old(self).cells, Coords { x, y }),
            replaced(old(self).cells, Coords { x, y }, *final(cell), final(self).cells),
            final(self).regions == old(self).regions,
    {
        &mut self.cells[y as usize][x as usize]
    }

    /// Empties every cell and sets up one region per row.
    pub fn clear(&mut self)
        ensures
            forall|p: Coords|
                in_grid(p) ==> #[trigger] cell_at(final(self).cells, p) == (Cell {
                    digit: None,
                    fixed: false,
                }),
            final(self)@.cages.active(),
            final(self)@.cages.wf(),
            final(self)@.cages.next == 9,
            forall|p: Coords| in_grid(p) ==> #[trigger] final(self)@.cages.id(p) == p.y,
            forall|k: u32| final(self)@.cages.sums.contains_key(k) <==> k < 9,
            forall|k: u32| k < 9 ==> final(self)@.cages.sums[k] == 45,
    {
        for y in 0..9usize
            invariant
                forall|p: Coords|
                    in_grid(p) && p.y < y ==> #[trigger] cell_at(self.cells, p) == (Cell {
                        digit: None,
                        fixed: false,
                    }),
        {
            for x in 0..9usize
                invariant
                    y < 9,
                    forall|p: Coords|
                        in_grid(p) && (p.y < y || (p.y == y && p.x < x)) ==> #[trigger] cell_at(
                            self.cells,
                            p,
                        ) == (Cell { digit: None, fixed: false }),
            {
                let ghost here = Coords { x: x as u8, y: y as u8 };
                let ghost mid = self.cells;
                self.cells[y][x] = Cell { digit: None, fixed: false };
                assert forall|p: Coords|
                    in_grid(p) && (p.y < y || (p.y == y && p.x < x + 1)) implies #[trigger] cell_at(
                    self.cells,
                    p,
                ) == (Cell { digit: None, fixed: false }) by {
                    if p != here {
                        assert(cell_at(self.cells, p) == cell_at(mid, p));
                    }
                }
            }
        }
        self.regions = Regions::new();
    }

    /// Empties every cell that is not a given.
    pub fn restart(&mut self)
        ensures
            final(self).regions == old(self).regions,
            forall|p: Coords|
                in_grid(p) ==> #[trigger] cell_at(final(self).cells, p) == if cell_at(
                    old(self).cells,
                    p,
                ).fixed {
                    cell_at(old(self).cells, p)
                } else {
                    Cell { digit: None, fixed: false }
                },
    {
        for y in 0..9usize
            invariant
                self.regions == old(self).regions,
                forall|p: Coords|
                    in_grid(p) ==> #[trigger] cell_at(self.cells, p) == if p.y < y && !cell_at(
                        old(self).cells,
                        p,
                    ).fixed {
                        Cell { digit: None, fixed: false }
                    } else {
                        cell_at(old(self).cells, p)
                    },
        {
            for x in 0..9usize
                invariant
                    y < 9,
                    self.regions == old(self).regions,
                    forall|p: Coords|
                        in_grid(p) ==> #[trigger] cell_at(self.cells, p) == if (p.y < y || (p.y
                            == y && p.x < x)) && !cell_at(old(self).cells, p).fixed {
                            Cell { digit: None, fixed: false }
                        } else {
                            cell_at(old(self).cells, p)
                        },
            {
                let ghost here = Coords { x: x as u8, y: y as u8 };
                let ghost mid = self.cells;
                assert(cell_at(mid, here) == cell_at(old(self).cells, here));
                if !self.cells[y][x].fixed {
                    self.cells[y][x] = Cell { digit: None, fixed: false };
                }
                assert forall|p: Coords| in_grid(p) implies #[trigger] cell_at(self.cells, p)
                    == if (p.y < y || (p.y == y && p.x < x + 1)) && !cell_at(
                    old(self).cells,
                    p,
                ).fixed {
                    Cell { digit: None, fixed: false }
                } else {
                    cell_at(old(self).cells, p)
                } by {
                    if p != here {
                        assert(cell_at(self.cells, p) == cell_at(mid, p));
                    }
                }
            }
        }
    }
}

} // verus!

//! A puzzle being played: what each command of the player does to it.

use vstd::prelude::*;
use crate::field::{Coords, Cell, Field, Grid, in_grid, cell_at, replaced};
use crate::settings::Vec2u;

verus! {

/// What the player can ask for.
pub enum Command {
    /// Put the digit into the selected cell.
    Digit(u8),
    /// Empty the selected cell.
    Erase,
    /// Show a solution.
    Solve,
    /// Make a new puzzle.
    Generate,
    /// Move the selection one cell up.
    Up,
    /// Move the selection one cell down.
    Down,
    /// Move the selection one cell to the left.
    Left,
    /// Move the selection one cell to the right.
    Right,
    /// Show or hide the help.
    ToggleOverlay,
    /// Enter or leave edit mode, in which givens are set and changed.
    ToggleEdit,
    /// In edit mode, empty the grid.
    Clear,
}

/// A count in words: none, one, so many, or so many or more.
#[derive(Debug, Clone, Copy, PartialEq, Eq)]
pub enum Quantity {
    Zero,
    One,
    Exactly(usize),
    AtLeast(usize),
}

/// How to word the count `n` of things of which at most `limit` were looked
/// for: a count that reached the limit may stand for more.
pub fn quantity(n: usize, limit: Option<usize>) -> (q: Quantity)
    ensures
        q == if n == 0 {
            Quantity::Zero
        } else if n == 1 {
            Quantity::One
        } else if limit is None || n < limit->0 {
            Quantity::Exactly(n)
        } else {
            Quantity::AtLeast(limit->0)
        },
{
    if n == 0 {
        Quantity::Zero
    } else if n == 1 {
        Quantity::One
    } else {
        match limit {
            Some(l) => if n < l {
                Quantity::Exactly(n)
            } else {
                Quantity::AtLeast(l)
            },
            None => Quantity::Exactly(n),
        }
    }
}

/// The state of play: the puzzle, the cell the player has selected, the
/// cell that stood in the way of the last digit, and the two modes. The
/// selection stays within the part of the grid that is shown, `extent`.
pub struct Session {
    pub field: Field,
    pub selected_cell: Option<Coords>,
    pub conflicting_cell: Option<Coords>,
    pub show_overlay: bool,
    pub edit_mode: bool,
    pub extent: Vec2u,
}

impl Session {
    /// The part shown is not empty and lies within the grid, the selection
    /// lies within it, and every lookup of a cell's sum succeeds.
    pub open spec fn wf(self) -> bool {
        &&& 1 <= self.extent.x <= 9
        &&& 1 <= self.extent.y <= 9
        &&& self.selected_cell matches Some(c) ==> c.x < self.extent.x && c.y < self.extent.y
        &&& self.field@.cages.consistent()
    }

    /// The cell that a digit or an erasure would change: the selected cell,
    /// if it is no given or givens are being edited.
    pub open spec fn target(self) -> Option<Coords> {
        match self.selected_cell {
            Some(c) => if !cell_at(self.field.cells, c).fixed || self.edit_mode {
                Some(c)
            } else {
                None
            },
            None => None,
        }
    }

    /// Neither the grid nor the mark differs between `self` and `next`.
    pub open spec fn untouched(self, next: Session) -> bool {
        next.field.cells == self.field.cells && next.conflicting_cell == self.conflicting_cell
    }

    /// Where the selection goes on a move by `dx` and `dy`: to the top left
    /// corner when nothing was selected, else one cell on unless that leaves
    /// the part shown.
    pub open spec fn moved(self, dx: int, dy: int) -> Option<Coords> {
        match self.selected_cell {
            Some(c) => {
                let x = c.x + dx;
                let y = c.y + dy;
                if 0 <= x < self.extent.x && 0 <= y < self.extent.y {
                    Some(Coords { x: x as u8, y: y as u8 })
                } else {
                    Some(c)
                }
            },
            None => Some(Coords { x: 0, y: 0 }),
        }
    }

    /// `next` is the state that `command` leads to from `self`.
    ///
    /// A digit or an erasure touches only a selected cell that may be
    /// changed. A legal digit goes into the cell, which becomes a given in
    /// edit mode; an illegal one leaves the grid alone and marks the cell
    /// in its way. Showing a solution and making a new puzzle drop the
    /// selection and the mark.
    pub open spec fn leads_to(self, command: Command, next: Session) -> bool {
        &&& next.extent == self.extent
        &&& match command {
            Command::Digit(d) => {
                &&& next.field.regions == self.field.regions
                &&& next.selected_cell == self.selected_cell
                &&& next.show_overlay == self.show_overlay
                &&& next.edit_mode == self.edit_mode
                &&& match self.target() {
                    Some(c) => if !(1 <= d <= 9) {
                        self.untouched(next)
                    } else if self.field@.legal(c, d) {
                        &&& replaced(
                            self.field.cells,
                            c,
                            Cell { digit: Some(d), fixed: self.edit_mode },
                            next.field.cells,
                        )
                        &&& next.conflicting_cell is None
                    } else {
                        &&& next.field.cells == self.field.cells
                        &&& next.conflicting_cell is Some
                        &&& self.field@.verdict(c, d, next.conflicting_cell)
                    },
                    None => self.untouched(next),
                }
            },
            Command::Erase => {
                &&& next.field.regions == self.field.regions
                &&& next.selected_cell == self.selected_cell
                &&& next.show_overlay == self.show_overlay
                &&& next.edit_mode == self.edit_mode
                &&& match self.target() {
                    Some(c) => {
                        &&& replaced(
                            self.field.cells,
                            c,
                            Cell { digit: None, fixed: false },
                            next.field.cells,
                        )
                        &&& next.conflicting_cell is None
                    },
                    None => self.untouched(next),
                }
            },
            Command::Solve => {
                &&& next.field.regions == self.field.regions
                &&& if self.field@.solvable() {
                    self.field@.solved_by(next.field.cells)
                } else {
                    next.field.cells == self.field.cells
                }
                &&& next.selected_cell is None
                &&& next.conflicting_cell is None
                &&& next.show_overlay == self.show_overlay
                &&& next.edit_mode == self.edit_mode
            },
            Command::Generate => {
                &&& next.field.regions == self.field.regions
                &&& next.field@.has_one_solution()
                &&& exists|key: Grid| #[trigger]
                    next.field@.carved_from(key) && next.field@.on(key).sound()
                &&& next.selected_cell is None
                &&& next.conflicting_cell is None
                &&& next.show_overlay == self.show_overlay
                &&& next.edit_mode == self.edit_mode
            },
            Command::Up => self.only_selection_changes(next) && next.selected_cell == self.moved(
                0,
                -1,
            ),
            Command::Down => self.only_selection_changes(next) && next.selected_cell == self.moved(
                0,
                1,
            ),
            Command::Left => self.only_selection_changes(next) && next.selected_cell == self.moved(
                -1,
                0,
            ),
            Command::Right => self.only_selection_changes(next) && next.selected_cell
                == self.moved(1, 0),
            Command::ToggleOverlay => {
                &&& next.field == self.field
                &&& next.selected_cell == self.selected_cell
                &&& next.conflicting_cell == self.conflicting_cell
                &&& next.show_overlay == !self.show_overlay
                &&& next.edit_mode == self.edit_mode
            },
            Command::ToggleEdit => {
                &&& next.field == self.field
                &&& next.selected_cell == self.selected_cell
                &&& next.conflicting_cell == self.conflicting_cell
                &&& next.show_overlay == self.show_overlay
                &&& next.edit_mode == !self.edit_mode
            },
            Command::Clear => {
                &&& next.selected_cell == self.selected_cell
                &&& next.conflicting_cell == self.conflicting_cell
                &&& next.show_overlay == self.show_overlay
                &&& next.edit_mode == self.edit_mode
                &&& if self.edit_mode {
                    &&& next.field@.blank()
                    &&& next.field@.cages.wf()
                    &&& next.field@.cages.next == 9
                    &&& forall|p: Coords| in_grid(p) ==> #[trigger] next.field@.cages.id(p) == p.y
                    &&& forall|k: u32| next.field@.cages.sums.contains_key(k) <==> k < 9
                    &&& forall|k: u32| k < 9 ==> next.field@.cages.sums[k] == 45
                } else {
                    next.field == self.field
                }
            },
        }
    }

    /// Nothing but the selection differs between `self` and `next`.
    pub open spec fn only_selection_changes(self, next: Session) -> bool {
        &&& next.field == self.field
        &&& next.conflicting_cell == self.conflicting_cell
        &&& next.show_overlay == self.show_overlay
        &&& next.edit_mode == self.edit_mode
    }

    /// A new classic puzzle, nothing selected, of which `extent` cells
    /// across and down are shown.
    pub fn new(extent: Vec2u) -> (session: Session)
        requires
            1 <= extent.x <= 9,
            1 <= extent.y <= 9,
        ensures
            session.wf(),
            session.extent == extent,
            session.selected_cell is None,
            session.conflicting_cell is None,
            !session.show_overlay,
            !session.edit_mode,
            !session.field@.cages.active(),
            session.field@.has_one_solution(),
    {
        Session {
            field: Field::new(),
            selected_cell: None,
            conflicting_cell: None,
            show_overlay: false,
            edit_mode: false,
            extent: extent,
        }
    }

    /// Selects the cell in column `x` of row `y`.
    pub fn select(&mut self, x: u8, y: u8)
        requires
            old(self).wf(),
            x < old(self).extent.x,
            y < old(self).extent.y,
        ensures
            final(self).wf(),
            final(self).selected_cell == Some(Coords { x, y }),
            final(self).field == old(self).field,
            final(self).conflicting_cell == old(self).conflicting_cell,
            final(self).show_overlay == old(self).show_overlay,
            final(self).edit_mode == old(self).edit_mode,
            final(self).extent == old(self).extent,
    {
        self.selected_cell = Some(Coords { x: x, y: y });
    }

    /// Carries out `command`.
    pub fn apply(&mut self, command: Command)
        requires
            old(self).wf(),
        ensures
            final(self).wf(),
            old(self).leads_to(command, *final(self)),
    {
        match command {
            Command::Digit(digit) => {
                if digit < 1 || digit > 9 {
                    return ;
                }
                if let Some(cell) = self.selected_cell {
                    if !self.field.cells[cell.y as usize][cell.x as usize].fixed || self.edit_mode {
                        match self.field.find_conflict(&cell, digit) {
                            Some(coords) => {
                                self.conflicting_cell = Some(coords);
                            },
                            None => {
                                let edit = self.edit_mode;
                                let place = self.field.get_cell(cell.x, cell.y);
                                place.digit = Some(digit);
                                place.fixed = edit;
                                self.conflicting_cell = None;
                            },
                        }
                    }
                }
            },
            Command::Erase => {
                if let Some(cell) = self.selected_cell {
                    if !self.field.cells[cell.y as usize][cell.x as usize].fixed || self.edit_mode {
                        let place = self.field.get_cell(cell.x, cell.y);
                        place.digit = None;
                        place.fixed = false;
                        self.conflicting_cell = None;
                    }
                }
            },
            Command::Solve => {
                self.field.fill_solution();
                self.conflicting_cell = None;
                self.selected_cell = None;
            },
            Command::Generate => {
                self.field.fill_random();
                self.conflicting_cell = None;
                self.selected_cell = None;
            },
            Command::Up => {
                match self.selected_cell {
                    Some(cell) => if cell.y > 0 {
                        self.selected_cell = Some(Coords { x: cell.x, y: cell.y - 1 });
                    },
                    None => self.selected_cell = Some(Coords { x: 0, y: 0 }),
                }
            },
            Command::Down => {
                match self.selected_cell {
                    Some(cell) => if (cell.y as u32) < (self.extent.y - 1) {
                        self.selected_cell = Some(Coords { x: cell.x, y: cell.y + 1 });
                    },
                    None => self.selected_cell = Some(Coords { x: 0, y: 0 }),
                }
            },
            Command::Left => {
                match self.selected_cell {
                    Some(cell) => if cell.x > 0 {
                        self.selected_cell = Some(Coords { x: cell.x - 1, y: cell.y });
                    },
                    None => self.selected_cell = Some(Coords { x: 0, y: 0 }),
                }
            },
            Command::Right => {
                match self.selected_cell {
                    Some(cell) => if (cell.x as u32) < (self.extent.x - 1) {
                        self.selected_cell = Some(Coords { x: cell.x + 1, y: cell.y });
                    },
                    None => self.selected_cell = Some(Coords { x: 0, y: 0 }),
                }
            },
            Command::ToggleOverlay => {
                self.show_overlay = !self.show_overlay;
            },
            Command::ToggleEdit => {
                self.edit_mode = !self.edit_mode;
            },
            Command::Clear => {
                if self.edit_mode {
                    self.field.clear();
                }
            },
        }
    }
}

} // verus!

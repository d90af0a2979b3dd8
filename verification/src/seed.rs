//! Why the search for an answer key cannot come back empty: a grid with one
//! digit in it always has a solution.

use vstd::prelude::*;
use vstd::array::spec_array_update;
use crate::field::{Coords, Cell, Grid, Board, in_grid, at, cell_at, digit_at};

verus! {

spec fn row_of(f: spec_fn(Coords) -> Cell, y: int, n: int) -> [Cell; 9]
    decreases n,
{
    if n <= 0 {
        arbitrary()
    } else {
        spec_array_update(row_of(f, y, n - 1), n - 1, f(at(n - 1, y)))
    }
}

spec fn rows_of(f: spec_fn(Coords) -> Cell, n: int) -> Grid
    decreases n,
{
    if n <= 0 {
        arbitrary()
    } else {
        spec_array_update(rows_of(f, n - 1), n - 1, row_of(f, n - 1, 9))
    }
}

proof fn lemma_row_of(f: spec_fn(Coords) -> Cell, y: int, n: int)
    requires
        0 <= n <= 9,
    ensures
        forall|x: int| 0 <= x < n ==> #[trigger] row_of(f, y, n)[x] == f(at(x, y)),
    decreases n,
{
    if n > 0 {
        lemma_row_of(f, y, n - 1);
        let before = row_of(f, y, n - 1);
        let after = row_of(f, y, n);
        assert(after@ == before@.update(n - 1, f(at(n - 1, y))));
        assert forall|x: int| 0 <= x < n implies #[trigger] after[x] == f(at(x, y)) by {
            if x < n - 1 {
                assert(before[x] == f(at(x, y)));
            }
        }
    }
}

proof fn lemma_rows_of(f: spec_fn(Coords) -> Cell, n: int)
    requires
        0 <= n <= 9,
    ensures
        forall|y: int| 0 <= y < n ==> #[trigger] rows_of(f, n)[y] == row_of(f, y, 9),
    decreases n,
{
    if n > 0 {
        lemma_rows_of(f, n - 1);
        let before = rows_of(f, n - 1);
        let after = rows_of(f, n);
        assert(after@ == before@.update(n - 1, row_of(f, n - 1, 9)));
        assert forall|y: int| 0 <= y < n implies #[trigger] after[y] == row_of(f, y, 9) by {
            if y < n - 1 {
                assert(before[y] == row_of(f, y, 9));
            }
        }
    }
}

/// For any choice of a cell for each position there is a grid made of them.
pub proof fn lemma_grid_of(f: spec_fn(Coords) -> Cell) -> (g: Grid)
    ensures
        forall|p: Coords| in_grid(p) ==> #[trigger] cell_at(g, p) == f(p),
{
    let g = rows_of(f, 9);
    lemma_rows_of(f, 9);
    assert forall|p: Coords| in_grid(p) implies #[trigger] cell_at(g, p) == f(p) by {
        lemma_row_of(f, p.y as int, 9);
        assert(g[p.y as int] == row_of(f, p.y as int, 9));
        assert(row_of(f, p.y as int, 9)[p.x as int] == f(at(p.x as int, p.y as int)));
    }
    g
}

/// A full sound grid to start from: each row is the one above shifted by
/// three, and by one more where a new band of boxes begins.
pub open spec fn base_digit(p: Coords) -> u8 {
    ((3 * (p.y % 3) + p.y / 3 + p.x) % 9 + 1) as u8
}

/// Two cells that share a row, a column or a box.
pub open spec fn peers(p: Coords, q: Coords) -> bool {
    p != q && (p.y == q.y || p.x == q.x || (p.x / 3 == q.x / 3 && p.y / 3 == q.y / 3))
}

proof fn lemma_base_sound(p: Coords, q: Coords)
    requires
        in_grid(p),
        in_grid(q),
        peers(p, q),
    ensures
        1 <= base_digit(p) <= 9,
        base_digit(p) != base_digit(q),
{
    let tp = 3 * (p.y % 3) + p.y / 3 + p.x;
    let tq = 3 * (q.y % 3) + q.y / 3 + q.x;
    assert(0 <= tp <= 16 && 0 <= tq <= 16);
    assert(tp % 9 == if tp < 9 {
        tp
    } else {
        tp - 9
    });
    assert(tq % 9 == if tq < 9 {
        tq
    } else {
        tq - 9
    });
    assert(tp != tq && tp != tq + 9 && tp + 9 != tq) by {
        let pi = p.x % 3;
        let pj = p.y % 3;
        let qi = q.x % 3;
        let qj = q.y % 3;
        assert(p.x == 3 * (p.x / 3) + pi && q.x == 3 * (q.x / 3) + qi);
        assert(p.y == 3 * (p.y / 3) + pj && q.y == 3 * (q.y / 3) + qj);
    }
}

/// The digit `v` after `a` and `d` have changed places.
pub open spec fn swapped(a: u8, d: u8, v: u8) -> u8 {
    if v == a {
        d
    } else if v == d {
        a
    } else {
        v
    }
}

/// A grid that is empty but for one digit from 1 to 9, with no cages in
/// force, has a solution: the base grid with that digit and the one it
/// displaces changing places throughout.
pub proof fn lemma_seeded_board_solvable(b: Board, c: Coords, d: u8)
    requires
        in_grid(c),
        1 <= d <= 9,
        !b.cages.active(),
        b.digit(c) == Some(d),
        forall|p: Coords| in_grid(p) && p != c ==> (#[trigger] b.digit(p)) is None,
    ensures
        b.solvable(),
{
    let a = base_digit(c);
    let f = |p: Coords|
        Cell { digit: Some(swapped(a, d, base_digit(p))), fixed: cell_at(b.cells, p).fixed };
    let s = lemma_grid_of(f);
    let bs = b.on(s);
    assert forall|p: Coords| in_grid(p) implies #[trigger] b.filled_by(s, p) by {
        assert(cell_at(s, p) == f(p));
        if p != c {
            assert(b.digit(p) is None);
            let v = digit_at(s, p)->0;
            assert forall|q: Coords| !#[trigger] bs.row_hit(p, v, q) by {
                if bs.row_hit(p, v, q) {
                    assert(cell_at(s, q) == f(q));
                    lemma_base_sound(p, q);
                }
            }
            assert forall|q: Coords| !#[trigger] bs.col_hit(p, v, q) by {
                if bs.col_hit(p, v, q) {
                    assert(cell_at(s, q) == f(q));
                    lemma_base_sound(p, q);
                }
            }
            assert forall|q: Coords| !#[trigger] bs.box_hit(p, v, q) by {
                if bs.box_hit(p, v, q) {
                    assert(cell_at(s, q) == f(q));
                    lemma_base_sound(p, q);
                }
            }
        }
    }
    assert(b.solved_by(s));
}

} // verus!

use rust_sudoku::field::{Cell, Coords, Field};
use rust_sudoku::regions::Regions;
use rust_sudoku::solver::Effort;

fn blank_field() -> Field {
    Field { cells: [[Cell { digit: None, fixed: false }; 9]; 9], regions: Regions::none() }
}

fn base_digit(x: usize, y: usize) -> u8 {
    ((3 * (y % 3) + y / 3 + x) % 9 + 1) as u8
}

fn full_field() -> Field {
    let mut field = blank_field();
    for y in 0..9usize {
        for x in 0..9usize {
            field.cells[y][x].digit = Some(base_digit(x, y));
        }
    }
    field
}

fn is_sound(field: &mut Field) -> bool {
    for y in 0..9u8 {
        for x in 0..9u8 {
            match field.get_cell(x, y).digit {
                Some(d) if (1..=9).contains(&d) => {
                    if field.find_conflict(&Coords { x, y }, d).is_some() {
                        return false;
                    }
                }
                _ => return false,
            }
        }
    }
    true
}

#[test]
fn full_grid_is_its_only_solution() {
    let mut field = full_field();
    let solutions = field.find_solutions(5);
    assert_eq!(solutions.len(), 1);
    for y in 0..9usize {
        for x in 0..9usize {
            assert_eq!(solutions[0].cells[y][x].digit, Some(base_digit(x, y)));
        }
    }
}

#[test]
fn one_missing_digit_is_found_again() {
    let mut field = full_field();
    let removed = field.get_cell(4, 4).digit;
    field.get_cell(4, 4).digit = None;
    assert_eq!(field.count_empty(), 1);
    let solutions = field.find_solutions(2);
    assert_eq!(solutions.len(), 1);
    assert_eq!(solutions[0].cells[4][4].digit, removed);
    // The field itself is left as it was.
    assert_eq!(field.get_cell(4, 4).digit, None);
}

#[test]
fn removing_then_restoring_leaves_the_grid_as_it_was() {
    let mut field = full_field();
    let before = field.clone();
    let digit = field.get_cell(2, 6).digit;
    field.get_cell(2, 6).digit = None;
    field.get_cell(2, 6).digit = digit;
    for y in 0..9usize {
        for x in 0..9usize {
            assert_eq!(field.cells[y][x].digit, before.cells[y][x].digit);
            assert_eq!(field.cells[y][x].fixed, before.cells[y][x].fixed);
        }
    }
}

#[test]
fn limit_caps_the_number_of_solutions() {
    let mut field = blank_field();
    assert_eq!(field.find_solutions(0).len(), 0);
    let mut solutions = field.find_solutions(3);
    assert_eq!(solutions.len(), 3);
    for s in solutions.iter_mut() {
        assert!(is_sound(s));
    }
    for i in 0..3 {
        for j in i + 1..3 {
            let same = (0..9).all(|y| {
                (0..9).all(|x| solutions[i].cells[y][x].digit == solutions[j].cells[y][x].digit)
            });
            assert!(!same);
        }
    }
}

#[test]
fn contradiction_has_no_solution() {
    let mut field = blank_field();
    // The first cell of the top row can take no digit: 1 to 8 stand in the
    // row and 9 in the column.
    for x in 1..9u8 {
        field.get_cell(x, 0).digit = Some(x);
    }
    field.get_cell(0, 5).digit = Some(9);
    assert_eq!(field.find_solutions(2).len(), 0);
    assert!(field.find_solution().is_none());
    let before = field.count_empty();
    field.fill_solution();
    assert_eq!(field.count_empty(), before);
}

#[test]
fn fill_solution_completes_the_grid() {
    let mut field = blank_field();
    field.get_cell(3, 3).digit = Some(7);
    field.fill_solution();
    assert_eq!(field.count_empty(), 0);
    assert_eq!(field.get_cell(3, 3).digit, Some(7));
    assert!(is_sound(&mut field));
}

#[test]
fn solver_obeys_cage_sums() {
    let key = full_field();
    let mut field = blank_field();
    field.regions = Regions::singletons(&key.cells);
    let solutions = field.find_solutions(3);
    assert_eq!(solutions.len(), 1);
    for y in 0..9usize {
        for x in 0..9usize {
            assert_eq!(solutions[0].cells[y][x].digit, key.cells[y][x].digit);
        }
    }
}

#[test]
fn clear_and_restart() {
    let mut field = full_field();
    field.get_cell(0, 0).fixed = true;
    field.restart();
    assert_eq!(field.count_empty(), 80);
    assert_eq!(field.get_cell(0, 0).digit, Some(1));
    field.clear();
    assert_eq!(field.count_empty(), 81);
    assert!(!field.get_cell(0, 0).fixed);
    assert_eq!(field.regions.sums.len(), 9);
}

#[test]
fn search_order_varies() {
    // The digits are tried in a shuffled order, so the first solution of
    // the empty grid differs from run to run.
    let mut field = blank_field();
    let first = field.find_solutions(1);
    let mut differs = false;
    for _ in 0..20 {
        let next = field.find_solutions(1);
        for y in 0..9 {
            for x in 0..9 {
                if next[0].cells[y][x].digit != first[0].cells[y][x].digit {
                    differs = true;
                }
            }
        }
    }
    assert!(differs);
}

#[test]
fn search_within_an_allowance() {
    let mut field = full_field();
    // A full grid is one visit away from its solution.
    let (found, cut) = field.find_solutions_within(2, Some(1));
    assert_eq!((found.len(), cut), (1, false));
    let (found, cut) = field.find_solutions_within(2, Some(0));
    assert_eq!((found.len(), cut), (0, true));
    let (found, cut) = field.find_solutions_within(0, Some(0));
    assert_eq!((found.len(), cut), (0, false));
    // Two empty cells: three visits at the least, 91 at the most.
    field.get_cell(0, 0).digit = None;
    field.get_cell(8, 8).digit = None;
    let (found, cut) = field.find_solutions_within(2, Some(2));
    assert_eq!((found.len(), cut), (0, true));
    let (found, cut) = field.find_solutions_within(2, Some(91));
    assert_eq!((found.len(), cut), (1, false));
    // The empty grid has more solutions than eighty-one visits can reach.
    let mut blank = blank_field();
    let (found, cut) = blank.find_solutions_within(3, Some(81));
    assert!(cut);
    assert_eq!(found.len(), 0);
    let (found, cut) = blank.find_solutions_within(3, None);
    assert_eq!((found.len(), cut), (3, false));
}

#[test]
fn empty_and_filled_cells_in_row_major_order() {
    let mut field = full_field();
    assert_eq!(field.first_empty(), None);
    assert_eq!(field.digit_cells().len(), 81);
    field.get_cell(5, 2).digit = None;
    field.get_cell(1, 7).digit = None;
    assert_eq!(field.first_empty(), Some(Coords { x: 5, y: 2 }));
    let filled = field.digit_cells();
    assert_eq!(filled.len(), 79);
    assert_eq!(filled[0], Coords { x: 0, y: 0 });
    assert_eq!(filled[23], Coords { x: 6, y: 2 });
    assert!(!filled.contains(&Coords { x: 1, y: 7 }));
    let blank = blank_field();
    assert_eq!(blank.first_empty(), Some(Coords { x: 0, y: 0 }));
    assert!(blank.digit_cells().is_empty());
}

#[test]
fn search_follows_the_order_given() {
    let mut field = blank_field();
    let order = vec![5u8, 1, 9, 2, 8, 3, 7, 4, 6];
    let mut found = Vec::new();
    let mut effort = Effort { left: None, cut: false };
    let stop = field.search_in_order(&Coords { x: 0, y: 0 }, &order, &mut found, 1, &mut effort);
    assert!(stop);
    assert!(!effort.cut);
    assert_eq!(found.len(), 1);
    assert_eq!(found[0].cells[0][0].digit, Some(5));
    // The search stopped on the solution: the grid is left as it.
    for y in 0..9usize {
        for x in 0..9usize {
            assert_eq!(field.cells[y][x].digit, found[0].cells[y][x].digit);
        }
    }
}

#[test]
fn search_in_order_skips_illegal_digits_and_undoes() {
    let mut field = full_field();
    field.get_cell(0, 0).digit = None;
    let order = vec![9u8, 8, 7, 6, 5, 4, 3, 2, 1];
    let mut found = Vec::new();
    let mut effort = Effort { left: Some(10), cut: false };
    let stop = field.search_in_order(&Coords { x: 0, y: 0 }, &order, &mut found, 2, &mut effort);
    assert!(!stop);
    assert_eq!(found.len(), 1);
    assert_eq!(found[0].cells[0][0].digit, Some(1));
    assert_eq!(field.get_cell(0, 0).digit, None);
    // One grid lies below: the one with the only legal digit.
    assert_eq!(effort.left, Some(9));
    assert!(!effort.cut);
}

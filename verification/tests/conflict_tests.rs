use rust_sudoku::field::{Cell, Coords, Field};
use rust_sudoku::regions::{RegionId, Regions};

fn blank_field() -> Field {
    Field { cells: [[Cell { digit: None, fixed: false }; 9]; 9], regions: Regions::none() }
}

#[test]
fn row_of_eight_digits_leaves_the_ninth() {
    let mut field = blank_field();
    for x in 0..8u8 {
        field.get_cell(x, 0).digit = Some(x + 1);
    }
    assert_eq!(field.find_conflict(&Coords { x: 8, y: 0 }, 9), None);
    assert_eq!(field.find_conflict(&Coords { x: 8, y: 0 }, 3), Some(Coords { x: 2, y: 0 }));
}

#[test]
fn column_is_checked_after_row() {
    let mut field = blank_field();
    field.get_cell(4, 7).digit = Some(6);
    assert_eq!(field.find_conflict(&Coords { x: 4, y: 0 }, 6), Some(Coords { x: 4, y: 7 }));
    field.get_cell(6, 0).digit = Some(6);
    assert_eq!(field.find_conflict(&Coords { x: 4, y: 0 }, 6), Some(Coords { x: 6, y: 0 }));
}

#[test]
fn box_is_scanned_by_column_then_row() {
    let mut field = blank_field();
    field.get_cell(5, 3).digit = Some(2);
    field.get_cell(3, 5).digit = Some(2);
    assert_eq!(field.find_conflict(&Coords { x: 4, y: 4 }, 2), Some(Coords { x: 3, y: 5 }));
}

#[test]
fn the_cell_itself_is_no_conflict() {
    let mut field = blank_field();
    field.get_cell(4, 4).digit = Some(2);
    assert_eq!(field.find_conflict(&Coords { x: 4, y: 4 }, 2), None);
}

fn cage_of_three(sum: u32) -> Field {
    let mut field = blank_field();
    let mut regions = Regions::new();
    regions.cells[0][0] = RegionId(9);
    regions.cells[0][1] = RegionId(9);
    regions.cells[0][2] = RegionId(9);
    regions.sums.insert(9, sum);
    regions.next_id = RegionId(10);
    field.regions = regions;
    field
}

#[test]
fn sum_of_one_with_two_blanks_rejects_every_digit() {
    let mut field = cage_of_three(1);
    for d in 1..=9u8 {
        assert_eq!(field.find_conflict(&Coords { x: 0, y: 0 }, d), Some(Coords { x: 2, y: 0 }));
    }
}

#[test]
fn cage_bounds_follow_the_formula() {
    // Two blanks beside the cell: the cage can reach d + 3 up to d + 17.
    let mut field = cage_of_three(10);
    let c = Coords { x: 0, y: 0 };
    assert_eq!(field.find_conflict(&c, 7), None);
    assert_eq!(field.find_conflict(&c, 8), Some(Coords { x: 2, y: 0 }));
    let mut field = cage_of_three(19);
    assert_eq!(field.find_conflict(&c, 1), Some(Coords { x: 2, y: 0 }));
    assert_eq!(field.find_conflict(&c, 2), None);
}

#[test]
fn cage_duplicate_is_the_first_in_row_major_order() {
    let mut field = cage_of_three(20);
    let mut regions = field.regions.clone();
    regions.cells[1][0] = RegionId(9);
    field.regions = regions;
    field.get_cell(0, 1).digit = Some(5);
    assert_eq!(field.find_conflict(&Coords { x: 1, y: 0 }, 5), Some(Coords { x: 0, y: 1 }));
}

#[test]
fn lone_cell_of_a_cage_is_its_own_conflict() {
    let mut solution = [[Cell { digit: Some(1), fixed: false }; 9]; 9];
    solution[0][0].digit = Some(4);
    let mut field = blank_field();
    field.regions = Regions::singletons(&solution);
    let c = Coords { x: 0, y: 0 };
    assert_eq!(field.find_conflict(&c, 4), None);
    assert_eq!(field.find_conflict(&c, 5), Some(c));
    assert_eq!(field.find_conflict(&c, 3), Some(c));
}

#[test]
fn count_options_counts_legal_digits_of_empty_cells() {
    let mut field = blank_field();
    assert_eq!(field.count_empty(), 81);
    assert_eq!(field.count_options(), 729);
    field.get_cell(0, 0).digit = Some(1);
    // 80 empty cells; the 20 peers of the corner lose the digit 1.
    assert_eq!(field.count_empty(), 80);
    assert_eq!(field.count_options(), 80 * 9 - 20);
}

#[test]
fn without_regions_the_cage_check_passes_any_region() {
    let mut field = blank_field();
    field.get_cell(1, 1).digit = Some(5);
    for id in [0u32, 1, 7, 4000] {
        for d in 1..=9u8 {
            assert_eq!(field.find_region_conflict(&Coords { x: 1, y: 0 }, d, RegionId(id)), None);
        }
    }
}

use rust_sudoku::field::{Cell, Coords, Field};
use rust_sudoku::regions::Regions;

#[test]
fn random_cells_is_a_full_sound_grid() {
    let field = Field { cells: [[Cell { digit: None, fixed: false }; 9]; 9], regions: Regions::none() };
    let cells = field.random_cells();
    let mut full = Field { cells, regions: Regions::none() };
    assert_eq!(full.count_empty(), 0);
    for y in 0..9u8 {
        for x in 0..9u8 {
            let d = full.get_cell(x, y).digit.unwrap();
            assert!((1..=9).contains(&d));
            assert!(!full.get_cell(x, y).fixed);
            assert_eq!(full.find_conflict(&Coords { x, y }, d), None);
        }
    }
}

#[test]
fn generated_puzzle_has_one_solution() {
    let mut field = Field::new();
    assert!(field.regions.sums.is_empty());
    assert!(field.count_empty() > 0);
    assert_eq!(field.find_solutions(2).len(), 1);
}

#[test]
fn generated_cages_partition_the_grid() {
    let mut field = Field::new_with_regions();
    assert_eq!(field.count_empty(), 81);
    let regions = field.regions.clone();
    // Every cell lies in a live region, and every live region has a cell.
    let mut total = 0;
    for (&id, _) in regions.sums.iter() {
        let size = regions.count_region(rust_sudoku::regions::RegionId(id));
        assert!(size >= 1);
        assert!(id < regions.next_id.0);
        total += size;
    }
    assert_eq!(total, 81);
    for y in 0..9u8 {
        for x in 0..9u8 {
            assert!(regions.sum_of(regions.id(&Coords { x, y })).is_some());
        }
    }
    assert_eq!(field.find_solutions(2).len(), 1);
}

#[test]
fn nothing_is_carved_without_a_search() {
    let mut field =
        Field { cells: [[Cell { digit: None, fixed: false }; 9]; 9], regions: Regions::none() };
    field.fill_random_within(Some(0));
    assert_eq!(field.count_empty(), 0);
    assert_eq!(field.find_solutions(2).len(), 1);
}

#[test]
fn nothing_is_merged_without_a_search() {
    let mut field =
        Field { cells: [[Cell { digit: None, fixed: false }; 9]; 9], regions: Regions::new() };
    field.fill_random_regions_within(Some(0));
    assert_eq!(field.count_empty(), 81);
    assert_eq!(field.regions.sums.len(), 81);
    assert_eq!(field.find_solutions(2).len(), 1);
}

#[test]
fn searches_of_the_generators_are_limited() {
    assert_eq!(rust_sudoku::generator::SEARCH_ALLOWANCE, 100_000);
    let mut field =
        Field { cells: [[Cell { digit: None, fixed: false }; 9]; 9], regions: Regions::none() };
    field.fill_random_within(Some(2_000));
    assert_eq!(field.find_solutions(2).len(), 1);
    let mut caged =
        Field { cells: [[Cell { digit: None, fixed: false }; 9]; 9], regions: Regions::none() };
    caged.fill_random_regions_within(Some(2_000));
    assert_eq!(caged.find_solutions(2).len(), 1);
}

fn base_digit(x: usize, y: usize) -> u8 {
    ((3 * (y % 3) + y / 3 + x) % 9 + 1) as u8
}

fn base_field() -> Field {
    let mut field =
        Field { cells: [[Cell { digit: None, fixed: false }; 9]; 9], regions: Regions::none() };
    for y in 0..9usize {
        for x in 0..9usize {
            field.cells[y][x].digit = Some(base_digit(x, y));
        }
    }
    field
}

#[test]
fn seeded_solution_holds_the_seed() {
    let field = base_field();
    let cells = field.seeded_solution(3, 4, 7);
    assert_eq!(cells[4][3].digit, Some(7));
    let mut full = Field { cells, regions: Regions::none() };
    assert_eq!(full.count_empty(), 0);
    for y in 0..9u8 {
        for x in 0..9u8 {
            let d = full.get_cell(x, y).digit.unwrap();
            assert!((1..=9).contains(&d));
            assert!(!full.get_cell(x, y).fixed);
            assert_eq!(full.find_conflict(&Coords { x, y }, d), None);
        }
    }
}

#[test]
fn carving_keeps_one_solution() {
    let mut field = base_field();
    assert!(field.try_carve(Coords { x: 0, y: 0 }, None));
    assert_eq!(field.get_cell(0, 0).digit, None);
    assert!(field.try_carve(Coords { x: 5, y: 7 }, Some(1_000)));
    assert_eq!(field.count_empty(), 2);
    // Without a grid to visit, nothing can be carved.
    assert!(!field.try_carve(Coords { x: 1, y: 0 }, Some(0)));
    assert_eq!(field.get_cell(1, 0).digit, Some(2));
    assert_eq!(field.find_solutions(2).len(), 1);
    // Two digits alone leave many solutions when one of them goes.
    let mut sparse =
        Field { cells: [[Cell { digit: None, fixed: false }; 9]; 9], regions: Regions::none() };
    sparse.get_cell(0, 0).digit = Some(4);
    sparse.get_cell(8, 8).digit = Some(6);
    sparse.get_cell(8, 8).fixed = true;
    assert!(!sparse.try_carve(Coords { x: 8, y: 8 }, None));
    assert_eq!(sparse.get_cell(8, 8).digit, Some(6));
    assert!(sparse.get_cell(8, 8).fixed);
    assert_eq!(sparse.count_empty(), 79);
}

#[test]
fn merging_two_cells_adds_their_digits() {
    let key = base_field();
    let mut field =
        Field { cells: [[Cell { digit: None, fixed: false }; 9]; 9], regions: Regions::none() };
    field.regions = Regions::singletons(&key.cells);
    let a = Coords { x: 0, y: 0 };
    let b = Coords { x: 1, y: 0 };
    // Without a grid to visit, nothing is merged.
    assert!(!field.try_merge(a, b, &key.cells, Some(0)));
    assert_eq!(field.regions.sums.len(), 81);
    assert_eq!(field.regions.next_id.0, 81);
    assert!(field.try_merge(a, b, &key.cells, None));
    let joined = field.regions.id(&a);
    assert_eq!(joined.0, 81);
    assert_eq!(field.regions.id(&b), joined);
    assert_eq!(field.regions.sum_of(joined), Some(3));
    assert_eq!(field.regions.sums.len(), 80);
    assert_eq!(field.count_empty(), 81);
    assert_eq!(field.find_solutions(2).len(), 1);
    // (0, 0) and (6, 1) both hold 1: no cage can hold both.
    let far = Coords { x: 6, y: 1 };
    assert!(!field.try_merge(a, far, &key.cells, None));
    assert_eq!(field.regions.sums.len(), 80);
    assert_eq!(field.regions.next_id.0, 82);
    assert_eq!(field.regions.id(&far).0, 15);
}

use rust_sudoku::field::{Cell, Coords};
use rust_sudoku::regions::{RegionId, Regions};

#[test]
fn merged_singletons_add_their_sums() {
    let mut regions = Regions::new();
    let a = regions.remove(Coords { x: 0, y: 0 }, 4);
    let b = regions.remove(Coords { x: 1, y: 0 }, 5);
    assert_eq!(regions.sum_of(a), Some(4));
    assert_eq!(regions.sum_of(b), Some(5));
    assert!(regions.is_neighbour(a, &Coords { x: 1, y: 0 }));
    let joined = regions.join(a, b);
    assert_eq!(regions.sum_of(joined), Some(9));
    assert_eq!(regions.sum_of(a), None);
    assert_eq!(regions.sum_of(b), None);
    assert_eq!(regions.id(&Coords { x: 0, y: 0 }), joined);
    assert_eq!(regions.id(&Coords { x: 1, y: 0 }), joined);
    assert_eq!(regions.count_region(joined), 2);
}

#[test]
fn rows_are_the_first_regions() {
    let regions = Regions::new();
    for y in 0..9u8 {
        for x in 0..9u8 {
            assert_eq!(regions.id(&Coords { x, y }), RegionId(y as u32));
        }
        assert_eq!(regions.sum_of(RegionId(y as u32)), Some(45));
        assert_eq!(regions.count_region(RegionId(y as u32)), 9);
    }
    assert_eq!(regions.sum_of(RegionId(9)), None);
    assert_eq!(regions.next_id, RegionId(9));
}

#[test]
fn no_regions_has_no_sums() {
    let regions = Regions::none();
    assert!(regions.sums.is_empty());
    assert_eq!(regions.count_region(RegionId(0)), 81);
}

#[test]
fn remove_carves_out_one_cell() {
    let mut regions = Regions::new();
    let single = regions.remove(Coords { x: 3, y: 2 }, 7);
    assert_eq!(single, RegionId(9));
    assert_eq!(regions.next_id, RegionId(10));
    assert_eq!(regions.sum_of(single), Some(7));
    assert_eq!(regions.sum_of(RegionId(2)), Some(38));
    assert_eq!(regions.count_region(RegionId(2)), 8);
    assert_eq!(regions.count_region(single), 1);
    // A region of one cell stays as it is.
    let again = regions.remove(Coords { x: 3, y: 2 }, 7);
    assert_eq!(again, single);
    assert_eq!(regions.next_id, RegionId(10));
}

#[test]
fn neighbours_come_in_row_major_order() {
    let mut regions = Regions::new();
    let single = regions.remove(Coords { x: 3, y: 2 }, 7);
    let around = regions.neighbours(single);
    assert_eq!(
        around,
        vec![
            Coords { x: 3, y: 1 },
            Coords { x: 2, y: 2 },
            Coords { x: 4, y: 2 },
            Coords { x: 3, y: 3 },
        ]
    );
    for _ in 0..20 {
        let picked = regions.random_neighbour(single);
        assert!(around.contains(&picked));
    }
    // The top row borders only the row below it.
    let below = regions.neighbours(RegionId(0));
    assert_eq!(below.len(), 9);
    assert!(below.iter().all(|c| c.y == 1));
    assert!(!regions.is_neighbour(single, &Coords { x: 4, y: 3 }));
    assert!(!regions.is_neighbour(single, &Coords { x: 3, y: 2 }));
}

#[test]
fn regions_join_only_without_a_repeated_digit() {
    let mut solution = [[Cell { digit: Some(1), fixed: false }; 9]; 9];
    for y in 0..9usize {
        for x in 0..9usize {
            solution[y][x].digit = Some(((3 * (y % 3) + y / 3 + x) % 9 + 1) as u8);
        }
    }
    let regions = Regions::singletons(&solution);
    let at = |x: u8, y: u8| regions.id(&Coords { x, y });
    assert!(regions.can_regions_join(at(0, 0), at(1, 0), &solution));
    // (0, 0) and (6, 1) both hold 1.
    assert!(!regions.can_regions_join(at(0, 0), at(6, 1), &solution));
    assert_eq!(regions.sum_of(at(1, 0)), Some(2));
    assert_eq!(regions.next_id, RegionId(81));
}

#[test]
fn random_neighbour_varies() {
    let mut regions = Regions::new();
    let single = regions.remove(Coords { x: 3, y: 2 }, 7);
    let first = regions.random_neighbour(single);
    let mut differs = false;
    for _ in 0..200 {
        if regions.random_neighbour(single) != first {
            differs = true;
        }
    }
    assert!(differs);
}

#[test]
fn lookups_succeed_when_every_cell_has_a_sum() {
    assert!(Regions::none().is_consistent());
    let mut regions = Regions::new();
    assert!(regions.is_consistent());
    regions.cells[4][4] = RegionId(77);
    assert!(!regions.is_consistent());
    regions.sums.insert(77, 5);
    assert!(regions.is_consistent());
}

#[test]
fn merging_keeps_the_partition_whole() {
    let mut solution = [[Cell { digit: Some(1), fixed: false }; 9]; 9];
    for y in 0..9usize {
        for x in 0..9usize {
            solution[y][x].digit = Some(((3 * (y % 3) + y / 3 + x) % 9 + 1) as u8);
        }
    }
    let mut regions = Regions::singletons(&solution);
    assert_eq!(regions.sums.len(), 81);
    let a = regions.id(&Coords { x: 0, y: 0 });
    let b = regions.id(&Coords { x: 0, y: 1 });
    let c = regions.id(&Coords { x: 1, y: 1 });
    let ab = regions.join(a, b);
    let abc = regions.join(ab, c);
    assert_eq!(regions.sums.len(), 79);
    assert_eq!(abc, RegionId(82));
    assert_eq!(regions.next_id, RegionId(83));
    // 1 at (0, 0), 4 at (0, 1), 5 at (1, 1).
    assert_eq!(regions.sum_of(abc), Some(10));
    assert_eq!(regions.count_region(abc), 3);
    assert_eq!(regions.sum_of(ab), None);
    assert!(regions.is_consistent());
    let mut cells = 0;
    for (&id, _) in regions.sums.iter() {
        let size = regions.count_region(RegionId(id));
        assert!(size >= 1);
        cells += size;
    }
    assert_eq!(cells, 81);
}

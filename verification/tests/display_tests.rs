use rust_sudoku::field::{Cell, Coords, Field};
use rust_sudoku::regions::{RegionId, Regions};

#[test]
pub fn test_without_regions() {
    let field = Field::new();
    println!("Random Field:\n{}", field.to_text());
}

#[test]
pub fn test_regions() {
    let field = Field::new_with_regions();
    println!("Random Field:\n{}", field.to_text());
}

#[test]
fn coordinates_and_region_names_as_text() {
    assert_eq!(Coords { x: 3, y: 8 }.to_text(), "(3, 8)");
    assert_eq!(Coords { x: 120, y: 0 }.to_text(), "(120, 0)");
    assert_eq!(RegionId(0).to_text(), "Region(0)");
    assert_eq!(RegionId(4294967295).to_text(), "Region(4294967295)");
}

#[test]
fn field_as_text() {
    let mut field =
        Field { cells: [[Cell { digit: None, fixed: false }; 9]; 9], regions: Regions::none() };
    field.get_cell(0, 0).digit = Some(5);
    field.get_cell(8, 8).digit = Some(1);
    let mut expected = String::from("Cells:\n5        \n");
    for _ in 0..7 {
        expected.push_str("         \n");
    }
    expected.push_str("        1\n");
    expected.push_str("Regions:\nSums:\n{}\nRegions:\n");
    for _ in 0..9 {
        expected.push_str("  0   0   0   0   0   0   0   0   0 \n");
    }
    expected.push_str("\n\n");
    assert_eq!(field.to_text(), expected);
}

#[test]
fn regions_as_text() {
    let mut regions = Regions::new();
    let a = regions.remove(Coords { x: 0, y: 0 }, 4);
    let b = regions.remove(Coords { x: 1, y: 0 }, 5);
    regions.join(a, b);
    let text = regions.to_text();
    let mut expected = String::from("Sums:\n{Region(0): 36");
    for k in 1..9 {
        expected.push_str(&format!(", Region({}): 45", k));
    }
    expected.push_str(", Region(11): 9}\nRegions:\n");
    expected.push_str(" 11  11   0   0   0   0   0   0   0 \n");
    for y in 1..9 {
        expected.push_str(&format!("  {}   {0}   {0}   {0}   {0}   {0}   {0}   {0}   {0} \n", y));
    }
    expected.push_str("\n");
    assert_eq!(text, expected);
    // Numbers of three digits fill their column.
    regions.cells[0][0] = RegionId(123);
    assert!(regions.to_text().contains("Regions:\n123  11   0"));
}

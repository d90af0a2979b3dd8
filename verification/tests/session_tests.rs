use rust_sudoku::field::{Cell, Coords, Field};
use rust_sudoku::regions::Regions;
use rust_sudoku::session::{quantity, Command, Quantity, Session};
use rust_sudoku::settings::Vec2u;

fn empty_session() -> Session {
    Session {
        field: Field { cells: [[Cell { digit: None, fixed: false }; 9]; 9], regions: Regions::none() },
        selected_cell: None,
        conflicting_cell: None,
        show_overlay: false,
        edit_mode: false,
        extent: Vec2u { x: 9, y: 9 },
    }
}

#[test]
fn counts_in_words() {
    assert_eq!(quantity(0, Some(10)), Quantity::Zero);
    assert_eq!(quantity(1, None), Quantity::One);
    assert_eq!(quantity(7, Some(10)), Quantity::Exactly(7));
    assert_eq!(quantity(10, Some(10)), Quantity::AtLeast(10));
    assert_eq!(quantity(12, Some(10)), Quantity::AtLeast(10));
    assert_eq!(quantity(12, None), Quantity::Exactly(12));
}

#[test]
fn new_session_holds_a_puzzle() {
    let mut session = Session::new(Vec2u { x: 9, y: 9 });
    assert_eq!(session.selected_cell, None);
    assert_eq!(session.conflicting_cell, None);
    assert!(!session.show_overlay);
    assert!(!session.edit_mode);
    assert_eq!(session.field.find_solutions(2).len(), 1);
}

#[test]
fn arrows_move_the_selection_within_the_extent() {
    let mut session = empty_session();
    session.extent = Vec2u { x: 6, y: 4 };
    session.apply(Command::Down);
    assert_eq!(session.selected_cell, Some(Coords { x: 0, y: 0 }));
    session.apply(Command::Up);
    session.apply(Command::Left);
    assert_eq!(session.selected_cell, Some(Coords { x: 0, y: 0 }));
    for _ in 0..10 {
        session.apply(Command::Right);
        session.apply(Command::Down);
    }
    assert_eq!(session.selected_cell, Some(Coords { x: 5, y: 3 }));
    session.apply(Command::Up);
    session.apply(Command::Left);
    assert_eq!(session.selected_cell, Some(Coords { x: 4, y: 2 }));
    session.select(1, 3);
    assert_eq!(session.selected_cell, Some(Coords { x: 1, y: 3 }));
}

#[test]
fn digits_go_in_where_legal() {
    let mut session = empty_session();
    session.apply(Command::Digit(5));
    assert_eq!(session.field.count_empty(), 81);
    session.select(2, 0);
    session.apply(Command::Digit(5));
    assert_eq!(session.field.get_cell(2, 0).digit, Some(5));
    assert!(!session.field.get_cell(2, 0).fixed);
    session.select(7, 0);
    session.apply(Command::Digit(5));
    assert_eq!(session.field.get_cell(7, 0).digit, None);
    assert_eq!(session.conflicting_cell, Some(Coords { x: 2, y: 0 }));
    session.apply(Command::Digit(0));
    session.apply(Command::Digit(10));
    assert_eq!(session.field.get_cell(7, 0).digit, None);
    assert_eq!(session.conflicting_cell, Some(Coords { x: 2, y: 0 }));
    session.apply(Command::Digit(6));
    assert_eq!(session.field.get_cell(7, 0).digit, Some(6));
    assert_eq!(session.conflicting_cell, None);
    session.apply(Command::Erase);
    assert_eq!(session.field.get_cell(7, 0).digit, None);
}

#[test]
fn givens_change_only_in_edit_mode() {
    let mut session = empty_session();
    session.select(4, 4);
    session.apply(Command::ToggleEdit);
    assert!(session.edit_mode);
    session.apply(Command::Digit(3));
    assert_eq!(session.field.get_cell(4, 4).digit, Some(3));
    assert!(session.field.get_cell(4, 4).fixed);
    session.apply(Command::ToggleEdit);
    session.apply(Command::Digit(4));
    session.apply(Command::Erase);
    assert_eq!(session.field.get_cell(4, 4).digit, Some(3));
    session.apply(Command::Clear);
    assert_eq!(session.field.get_cell(4, 4).digit, Some(3));
    session.apply(Command::ToggleEdit);
    session.apply(Command::Erase);
    assert_eq!(session.field.get_cell(4, 4).digit, None);
    assert!(!session.field.get_cell(4, 4).fixed);
    session.apply(Command::Digit(3));
    session.apply(Command::Clear);
    assert_eq!(session.field.count_empty(), 81);
    assert_eq!(session.field.regions.sums.len(), 9);
    session.apply(Command::ToggleOverlay);
    assert!(session.show_overlay);
    session.apply(Command::ToggleOverlay);
    assert!(!session.show_overlay);
}

#[test]
fn solving_and_generating_drop_the_selection() {
    let mut session = empty_session();
    session.select(0, 0);
    session.apply(Command::Digit(9));
    session.select(8, 0);
    session.apply(Command::Digit(9));
    assert!(session.conflicting_cell.is_some());
    session.apply(Command::Solve);
    assert_eq!(session.selected_cell, None);
    assert_eq!(session.conflicting_cell, None);
    assert_eq!(session.field.count_empty(), 0);
    assert_eq!(session.field.get_cell(0, 0).digit, Some(9));
    session.select(3, 3);
    session.apply(Command::Generate);
    assert_eq!(session.selected_cell, None);
    assert_eq!(session.field.find_solutions(2).len(), 1);
}

use rusty_json::position::Position;

#[test]
fn new_position_is_first_line_first_column() {
    let p = Position::new();
    assert_eq!(p, Position { row: 1, column: 1 });
}

#[test]
fn next_column_moves_right() {
    let mut p = Position::new();
    let r = *p.next_column();
    assert_eq!(r, Position { row: 1, column: 2 });
    assert_eq!(p, Position { row: 1, column: 2 });
}

#[test]
fn next_row_goes_to_first_column() {
    let mut p = Position { row: 3, column: 7 };
    let r = *p.next_row();
    assert_eq!(r, Position { row: 4, column: 1 });
    assert_eq!(p, Position { row: 4, column: 1 });
}

#[test]
fn reset_column_keeps_row() {
    let mut p = Position { row: 5, column: 9 };
    let r = *p.reset_column();
    assert_eq!(r, Position { row: 5, column: 1 });
    assert_eq!(p, Position { row: 5, column: 1 });
}

#[test]
fn position_text_is_row_colon_column() {
    assert_eq!(Position { row: 3, column: 14 }.to_string(), "3:14");
    assert_eq!(Position::new().to_string(), "1:1");
    assert_eq!(Position { row: 120, column: 7 }.to_string(), "120:7");
    assert_eq!(Position { row: -5, column: i32::MAX }.to_string(), "-5:2147483647");
    assert_eq!(Position { row: i32::MIN, column: 0 }.to_string(), "-2147483648:0");
}

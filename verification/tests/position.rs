use unicode_le::detect::position::{Position, PositionIndex};

#[test]
fn the_first_character_is_line_one_column_one() {
    let index = PositionIndex::new("abc");
    assert_eq!(index.at(0), Position { line: 1, column: 1 });
}

#[test]
fn a_newline_starts_the_next_line() {
    let index = PositionIndex::new("ab\ncd");
    assert_eq!(index.at(3), Position { line: 2, column: 1 });
    assert_eq!(index.at(4), Position { line: 2, column: 2 });
}

#[test]
fn an_empty_document_still_answers() {
    let index = PositionIndex::new("");
    assert_eq!(index.at(0), Position { line: 1, column: 1 });
}

#[test]
fn an_offset_past_the_end_clamps() {
    let index = PositionIndex::new("ab");
    assert_eq!(index.at(999), Position { line: 1, column: 3 });
}

#[test]
fn a_three_byte_invisible_counts_as_one_column() {
    let index = PositionIndex::new("a\u{2060}b");
    assert_eq!(index.at(4), Position { line: 1, column: 3 });
}

#[test]
fn an_astral_character_counts_as_two_columns() {
    let index = PositionIndex::new("\u{1d41a}!");
    assert_eq!(index.at(4), Position { line: 1, column: 3 });
}

#[test]
fn utf16_counting_restarts_on_each_line() {
    let index = PositionIndex::new("é\né!");
    assert_eq!(index.at(5), Position { line: 2, column: 2 });
}

#[test]
fn an_offset_inside_a_character_floors_to_its_start() {
    let index = PositionIndex::new("é!");
    assert_eq!(index.at(1), Position { line: 1, column: 1 });
}

#[test]
fn a_carriage_return_does_not_start_a_line() {
    let index = PositionIndex::new("a\r\nb");
    assert_eq!(index.at(1), Position { line: 1, column: 2 });
    assert_eq!(index.at(3), Position { line: 2, column: 1 });
}

#[test]
fn a_boundary_floor_is_a_byte_offset() {
    let index = PositionIndex::new("é日!");
    assert_eq!(index.floor_to_boundary(1), 0);
    assert_eq!(index.floor_to_boundary(3), 2);
    assert_eq!(index.floor_to_boundary(4), 2);
    assert_eq!(index.floor_to_boundary(5), 5);
    assert_eq!(index.floor_to_boundary(99), 6);
}

use quantum_ide::buffer::{BufferError, Position, TextBuffer};

#[test]
fn insert_into_empty_buffer() {
    let mut buffer = TextBuffer::new();
    buffer.insert(Position::new(0, 0), "hello").unwrap();
    assert_eq!(buffer.to_string_full(), "hello");
}

#[test]
fn insert_in_middle_of_line() {
    let mut buffer = TextBuffer::from_str("held");
    buffer.insert(Position::new(0, 2), "ll").unwrap();
    assert_eq!(buffer.to_string_full(), "hellld");
}

#[test]
fn insert_on_second_line() {
    let mut buffer = TextBuffer::from_str("first\nsecond\n");
    buffer.insert(Position::new(1, 6), "!").unwrap();
    assert_eq!(buffer.to_string_full(), "first\nsecond!\n");
}

#[test]
fn delete_range_within_line() {
    let mut buffer = TextBuffer::from_str("hello world");
    buffer
        .delete(Position::new(0, 5), Position::new(0, 11))
        .unwrap();
    assert_eq!(buffer.to_string_full(), "hello");
}

#[test]
fn delete_across_lines() {
    let mut buffer = TextBuffer::from_str("first\nsecond\nthird\n");
    buffer
        .delete(Position::new(0, 5), Position::new(2, 0))
        .unwrap();
    assert_eq!(buffer.to_string_full(), "firstthird\n");
}

#[test]
fn undo_reverses_insert() {
    let mut buffer = TextBuffer::from_str("hello");
    buffer.insert(Position::new(0, 5), " world").unwrap();
    assert_eq!(buffer.to_string_full(), "hello world");

    assert!(buffer.undo());
    assert_eq!(buffer.to_string_full(), "hello");
}

#[test]
fn undo_reverses_delete() {
    let mut buffer = TextBuffer::from_str("hello world");
    buffer
        .delete(Position::new(0, 5), Position::new(0, 11))
        .unwrap();
    assert_eq!(buffer.to_string_full(), "hello");

    assert!(buffer.undo());
    assert_eq!(buffer.to_string_full(), "hello world");
}

#[test]
fn redo_reapplies_undone_edit() {
    let mut buffer = TextBuffer::from_str("hello");
    buffer.insert(Position::new(0, 5), "!").unwrap();
    buffer.undo();
    assert_eq!(buffer.to_string_full(), "hello");

    assert!(buffer.redo());
    assert_eq!(buffer.to_string_full(), "hello!");
}

#[test]
fn new_edit_clears_redo_stack() {
    let mut buffer = TextBuffer::from_str("hello");
    buffer.insert(Position::new(0, 5), "!").unwrap();
    buffer.undo();

    buffer.insert(Position::new(0, 5), "?").unwrap();
    assert_eq!(buffer.to_string_full(), "hello?");
    assert!(!buffer.redo());
    assert_eq!(buffer.to_string_full(), "hello?");
}

#[test]
fn multiple_undo_redo_round_trip() {
    let mut buffer = TextBuffer::new();
    buffer.insert(Position::new(0, 0), "a").unwrap();
    buffer.insert(Position::new(0, 1), "b").unwrap();
    buffer.insert(Position::new(0, 2), "c").unwrap();
    assert_eq!(buffer.to_string_full(), "abc");

    assert!(buffer.undo());
    assert!(buffer.undo());
    assert_eq!(buffer.to_string_full(), "a");

    assert!(buffer.redo());
    assert!(buffer.redo());
    assert_eq!(buffer.to_string_full(), "abc");
}

#[test]
fn out_of_bounds_line_returns_error() {
    let mut buffer = TextBuffer::from_str("only one line");
    let result = buffer.insert(Position::new(5, 0), "x");
    assert!(matches!(result, Err(BufferError::LineOutOfBounds(5, 1))));
}

#[test]
fn out_of_bounds_column_returns_error() {
    let mut buffer = TextBuffer::from_str("short");
    let result = buffer.insert(Position::new(0, 100), "x");
    assert!(matches!(
        result,
        Err(BufferError::ColumnOutOfBounds(100, 0, 5))
    ));
}

#[test]
fn inverted_delete_range_returns_error() {
    let mut buffer = TextBuffer::from_str("hello world");
    let result = buffer.delete(Position::new(0, 5), Position::new(0, 0));
    assert!(matches!(result, Err(BufferError::InvertedRange(_, _))));
}

#[test]
fn line_and_line_count() {
    let buffer = TextBuffer::from_str("first\nsecond\nthird");
    assert_eq!(buffer.line_count(), 3);
    assert_eq!(buffer.line(0), Some("first\n".to_string()));
    assert_eq!(buffer.line(2), Some("third".to_string()));
    assert_eq!(buffer.line(3), None);
}

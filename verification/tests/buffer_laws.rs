use quantum_ide::buffer::{BufferError, Position, TextBuffer};

#[test]
fn empty_insert_succeeds_anywhere_and_records_nothing() {
    let mut buffer = TextBuffer::from_str("abc");
    assert!(buffer.insert(Position::new(9, 9), "").is_ok());
    assert_eq!(buffer.to_string_full(), "abc");
    assert!(!buffer.undo());
}

#[test]
fn empty_delete_range_records_nothing() {
    let mut buffer = TextBuffer::from_str("abc");
    buffer.insert(Position::new(0, 3), "d").unwrap();
    assert!(buffer.delete(Position::new(0, 1), Position::new(0, 1)).is_ok());
    assert_eq!(buffer.to_string_full(), "abcd");
    assert!(buffer.undo());
    assert_eq!(buffer.to_string_full(), "abc");
    assert!(!buffer.undo());
}

#[test]
fn position_past_line_break_is_start_of_next_line() {
    let mut buffer = TextBuffer::from_str("ab\ncd");
    buffer.insert(Position::new(0, 3), "X").unwrap();
    assert_eq!(buffer.to_string_full(), "ab\nXcd");
}

#[test]
fn column_bound_counts_the_line_break() {
    let mut buffer = TextBuffer::from_str("ab\r\ncd");
    let result = buffer.insert(Position::new(0, 5), "x");
    assert!(matches!(result, Err(BufferError::ColumnOutOfBounds(5, 0, 4))));
    assert_eq!(buffer.to_string_full(), "ab\r\ncd");
}

#[test]
fn delete_checks_range_order_before_positions() {
    let mut buffer = TextBuffer::from_str("ab");
    let result = buffer.delete(Position::new(7, 0), Position::new(6, 0));
    assert!(matches!(result, Err(BufferError::InvertedRange(_, _))));
}

#[test]
fn delete_reports_start_then_end() {
    let mut buffer = TextBuffer::from_str("ab\ncd");
    let result = buffer.delete(Position::new(0, 9), Position::new(5, 0));
    assert!(matches!(result, Err(BufferError::ColumnOutOfBounds(9, 0, 3))));
    let result = buffer.delete(Position::new(0, 1), Position::new(5, 0));
    assert!(matches!(result, Err(BufferError::LineOutOfBounds(5, 2))));
    assert_eq!(buffer.to_string_full(), "ab\ncd");
}

#[test]
fn refused_edit_keeps_redo_history() {
    let mut buffer = TextBuffer::from_str("ab");
    buffer.insert(Position::new(0, 2), "c").unwrap();
    assert!(buffer.undo());
    assert!(buffer.insert(Position::new(4, 0), "x").is_err());
    assert!(buffer.redo());
    assert_eq!(buffer.to_string_full(), "abc");
}

#[test]
fn undo_then_redo_of_delete_round_trips() {
    let mut buffer = TextBuffer::from_str("one\ntwo\nthree");
    buffer.delete(Position::new(0, 2), Position::new(2, 1)).unwrap();
    assert_eq!(buffer.to_string_full(), "onhree");
    assert!(buffer.undo());
    assert_eq!(buffer.to_string_full(), "one\ntwo\nthree");
    assert!(buffer.redo());
    assert_eq!(buffer.to_string_full(), "onhree");
    assert!(buffer.undo());
    assert_eq!(buffer.to_string_full(), "one\ntwo\nthree");
}

#[test]
fn undo_and_redo_on_empty_histories_change_nothing() {
    let mut buffer = TextBuffer::from_str("x");
    assert!(!buffer.undo());
    assert!(!buffer.redo());
    assert_eq!(buffer.to_string_full(), "x");
}

#[test]
fn char_len_counts_chars_not_bytes() {
    let mut buffer = TextBuffer::from_str("h\u{e9}llo");
    assert_eq!(buffer.char_len(), 5);
    buffer.insert(Position::new(0, 1), "\u{2603}\u{2603}").unwrap();
    assert_eq!(buffer.char_len(), 7);
    assert_eq!(buffer.to_string_full(), "h\u{2603}\u{2603}\u{e9}llo");
}

#[test]
fn every_unicode_line_break_starts_a_line() {
    let buffer = TextBuffer::from_str("a\rb\r\nc\u{0b}d\u{0c}e\u{85}f\u{2028}g\u{2029}h\n");
    assert_eq!(buffer.line_count(), 9);
    assert_eq!(buffer.line(0), Some("a\r".to_string()));
    assert_eq!(buffer.line(1), Some("b\r\n".to_string()));
    assert_eq!(buffer.line(6), Some("g\u{2029}".to_string()));
    assert_eq!(buffer.line(8), Some(String::new()));
}

#[test]
fn empty_buffer_has_one_empty_line() {
    let buffer = TextBuffer::default();
    assert_eq!(buffer.line_count(), 1);
    assert_eq!(buffer.line(0), Some(String::new()));
    assert_eq!(buffer.char_len(), 0);
}

#[test]
fn three_undos_three_redos_give_back_the_text() {
    let mut buffer = TextBuffer::from_str("xy");
    buffer.insert(Position::new(0, 1), "--").unwrap();
    buffer.delete(Position::new(0, 0), Position::new(0, 2)).unwrap();
    buffer.insert(Position::new(0, 0), "\n").unwrap();
    let after = buffer.to_string_full();
    assert_eq!(after, "\n-y");
    assert!(buffer.undo());
    assert!(buffer.undo());
    assert!(buffer.undo());
    assert_eq!(buffer.to_string_full(), "xy");
    assert!(!buffer.undo());
    assert!(buffer.redo());
    assert!(buffer.redo());
    assert!(buffer.redo());
    assert_eq!(buffer.to_string_full(), after);
    assert!(!buffer.redo());
}

#[test]
fn each_undo_walks_back_one_edit() {
    let mut buffer = TextBuffer::from_str("ab");
    buffer.insert(Position::new(0, 2), "c").unwrap();
    buffer.delete(Position::new(0, 0), Position::new(0, 1)).unwrap();
    buffer.insert(Position::new(0, 0), "x\n").unwrap();
    assert_eq!(buffer.to_string_full(), "x\nbc");
    assert!(buffer.undo());
    assert_eq!(buffer.to_string_full(), "bc");
    assert!(buffer.undo());
    assert_eq!(buffer.to_string_full(), "abc");
    assert!(buffer.undo());
    assert_eq!(buffer.to_string_full(), "ab");
    assert!(!buffer.undo());
    assert_eq!(buffer.to_string_full(), "ab");
}

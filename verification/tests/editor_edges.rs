use quantum_ide::buffer::{Position, TextBuffer};
use quantum_ide::editor::{trimmed_char_count, EditorWidget, Key, KeyEvent};

fn press(editor: &mut EditorWidget, key: Key) {
    editor.handle_key_event(KeyEvent::new(key));
}

#[test]
fn typing_at_an_invalid_cursor_changes_nothing() {
    let mut editor = EditorWidget::new(TextBuffer::from_str("ab"));
    editor.set_cursor(Position::new(3, 0));
    press(&mut editor, Key::Char('x'));
    assert_eq!(editor.buffer().to_string_full(), "ab");
    assert_eq!(editor.cursor(), Position::new(3, 0));
}

#[test]
fn backspace_at_buffer_start_changes_nothing() {
    let mut editor = EditorWidget::new(TextBuffer::from_str("ab"));
    press(&mut editor, Key::Backspace);
    assert_eq!(editor.buffer().to_string_full(), "ab");
    assert_eq!(editor.cursor(), Position::new(0, 0));
}

#[test]
fn delete_forward_at_buffer_end_changes_nothing() {
    let mut editor = EditorWidget::new(TextBuffer::from_str("ab"));
    editor.set_cursor(Position::new(0, 2));
    press(&mut editor, Key::Delete);
    assert_eq!(editor.buffer().to_string_full(), "ab");
    assert_eq!(editor.cursor(), Position::new(0, 2));
}

#[test]
fn end_stops_before_crlf() {
    let mut editor = EditorWidget::new(TextBuffer::from_str("ab\r\ncd"));
    press(&mut editor, Key::End);
    assert_eq!(editor.cursor(), Position::new(0, 2));
}

#[test]
fn moves_at_the_edges_stay_put() {
    let mut editor = EditorWidget::new(TextBuffer::from_str("ab"));
    press(&mut editor, Key::ArrowLeft);
    press(&mut editor, Key::ArrowUp);
    assert_eq!(editor.cursor(), Position::new(0, 0));
    editor.set_cursor(Position::new(0, 2));
    press(&mut editor, Key::ArrowRight);
    press(&mut editor, Key::ArrowDown);
    assert_eq!(editor.cursor(), Position::new(0, 2));
}

#[test]
fn typed_char_then_backspace_gives_back_the_text() {
    let mut editor = EditorWidget::new(TextBuffer::from_str("ab\ncd"));
    editor.set_cursor(Position::new(1, 1));
    press(&mut editor, Key::Char('\u{e9}'));
    assert_eq!(editor.buffer().to_string_full(), "ab\nc\u{e9}d");
    assert_eq!(editor.cursor(), Position::new(1, 2));
    press(&mut editor, Key::Backspace);
    assert_eq!(editor.buffer().to_string_full(), "ab\ncd");
    assert_eq!(editor.cursor(), Position::new(1, 1));
}

#[test]
fn editor_undo_and_redo_keep_the_cursor() {
    let mut editor = EditorWidget::new(TextBuffer::new());
    press(&mut editor, Key::Char('a'));
    press(&mut editor, Key::Char('b'));
    assert!(editor.undo());
    assert_eq!(editor.buffer().to_string_full(), "a");
    assert_eq!(editor.cursor(), Position::new(0, 2));
    assert!(editor.redo());
    assert_eq!(editor.buffer().to_string_full(), "ab");
    assert!(!editor.redo());
}

#[test]
fn trimmed_count_drops_only_trailing_cr_and_lf() {
    assert_eq!(trimmed_char_count("ab\r\n\n"), 2);
    assert_eq!(trimmed_char_count("a\rb"), 3);
    assert_eq!(trimmed_char_count("\n\r"), 0);
    assert_eq!(trimmed_char_count("x\u{2028}"), 2);
}

#[test]
fn arrow_left_then_right_comes_back() {
    let mut editor = EditorWidget::new(TextBuffer::from_str("ab\r\n\u{2028}cd"));
    for &(line, column) in &[(0, 1), (0, 2), (1, 1), (2, 0), (2, 2)] {
        editor.set_cursor(Position::new(line, column));
        press(&mut editor, Key::ArrowLeft);
        press(&mut editor, Key::ArrowRight);
        assert_eq!(editor.cursor(), Position::new(line, column));
    }
}

#[test]
fn lines_join_to_the_whole_text() {
    let text = "one\r\ntwo\rthree\u{85}\n";
    let buffer = TextBuffer::from_str(text);
    let mut joined = String::new();
    for i in 0..buffer.line_count() {
        joined.push_str(&buffer.line(i).unwrap());
    }
    assert_eq!(joined, buffer.to_string_full());
    assert_eq!(buffer.line_count(), 5);
}

#[test]
fn enter_then_backspace_gives_back_text_and_cursor() {
    let mut editor = EditorWidget::new(TextBuffer::from_str("abc\ndef"));
    editor.set_cursor(Position::new(1, 1));
    press(&mut editor, Key::Enter);
    assert_eq!(editor.buffer().to_string_full(), "abc\nd\nef");
    assert_eq!(editor.cursor(), Position::new(2, 0));
    press(&mut editor, Key::Backspace);
    assert_eq!(editor.buffer().to_string_full(), "abc\ndef");
    assert_eq!(editor.cursor(), Position::new(1, 1));
}

#[test]
fn erasing_keys_keep_the_cursor_on_the_text() {
    let mut editor = EditorWidget::new(TextBuffer::from_str("ab\ncd"));
    editor.set_cursor(Position::new(0, 2));
    press(&mut editor, Key::Delete);
    assert_eq!(editor.buffer().to_string_full(), "abcd");
    assert_eq!(editor.cursor(), Position::new(0, 2));
    editor.set_cursor(Position::new(0, 4));
    press(&mut editor, Key::Backspace);
    press(&mut editor, Key::Delete);
    assert_eq!(editor.buffer().to_string_full(), "abc");
    assert_eq!(editor.cursor(), Position::new(0, 3));
}

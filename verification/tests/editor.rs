use quantum_ide::buffer::{Position, TextBuffer};
use quantum_ide::editor::{EditorWidget, Key, KeyEvent};

fn press(editor: &mut EditorWidget, key: Key) {
    editor.handle_key_event(KeyEvent::new(key));
}

#[test]
fn typing_characters_inserts_and_advances_cursor() {
    let mut editor = EditorWidget::new(TextBuffer::new());
    press(&mut editor, Key::Char('h'));
    press(&mut editor, Key::Char('i'));

    assert_eq!(editor.buffer().to_string_full(), "hi");
    assert_eq!(editor.cursor(), Position::new(0, 2));
}

#[test]
fn enter_inserts_newline_and_moves_to_next_line_start() {
    let mut editor = EditorWidget::new(TextBuffer::from_str("ab"));
    editor.set_cursor(Position::new(0, 2));
    press(&mut editor, Key::Enter);

    assert_eq!(editor.buffer().to_string_full(), "ab\n");
    assert_eq!(editor.cursor(), Position::new(1, 0));
}

#[test]
fn backspace_within_line_deletes_previous_char() {
    let mut editor = EditorWidget::new(TextBuffer::from_str("hello"));
    editor.set_cursor(Position::new(0, 5));
    press(&mut editor, Key::Backspace);

    assert_eq!(editor.buffer().to_string_full(), "hell");
    assert_eq!(editor.cursor(), Position::new(0, 4));
}

#[test]
fn backspace_at_line_start_merges_with_previous_line() {
    let mut editor = EditorWidget::new(TextBuffer::from_str("first\nsecond"));
    editor.set_cursor(Position::new(1, 0));
    press(&mut editor, Key::Backspace);

    assert_eq!(editor.buffer().to_string_full(), "firstsecond");
    assert_eq!(editor.cursor(), Position::new(0, 5));
}

#[test]
fn delete_forward_within_line_removes_next_char() {
    let mut editor = EditorWidget::new(TextBuffer::from_str("hello"));
    editor.set_cursor(Position::new(0, 0));
    press(&mut editor, Key::Delete);

    assert_eq!(editor.buffer().to_string_full(), "ello");
    assert_eq!(editor.cursor(), Position::new(0, 0));
}

#[test]
fn delete_forward_at_line_end_merges_next_line() {
    let mut editor = EditorWidget::new(TextBuffer::from_str("first\nsecond"));
    editor.set_cursor(Position::new(0, 5));
    press(&mut editor, Key::Delete);

    assert_eq!(editor.buffer().to_string_full(), "firstsecond");
    assert_eq!(editor.cursor(), Position::new(0, 5));
}

#[test]
fn arrow_left_and_right_move_within_line() {
    let mut editor = EditorWidget::new(TextBuffer::from_str("abc"));
    editor.set_cursor(Position::new(0, 1));

    press(&mut editor, Key::ArrowRight);
    assert_eq!(editor.cursor(), Position::new(0, 2));

    press(&mut editor, Key::ArrowLeft);
    press(&mut editor, Key::ArrowLeft);
    assert_eq!(editor.cursor(), Position::new(0, 0));
}

#[test]
fn arrow_left_at_line_start_wraps_to_previous_line_end() {
    let mut editor = EditorWidget::new(TextBuffer::from_str("first\nsecond"));
    editor.set_cursor(Position::new(1, 0));
    press(&mut editor, Key::ArrowLeft);

    assert_eq!(editor.cursor(), Position::new(0, 5));
}

#[test]
fn arrow_right_at_line_end_wraps_to_next_line_start() {
    let mut editor = EditorWidget::new(TextBuffer::from_str("first\nsecond"));
    editor.set_cursor(Position::new(0, 5));
    press(&mut editor, Key::ArrowRight);

    assert_eq!(editor.cursor(), Position::new(1, 0));
}

#[test]
fn arrow_up_and_down_clamp_column_to_shorter_line() {
    let mut editor = EditorWidget::new(TextBuffer::from_str("longline\nhi"));
    editor.set_cursor(Position::new(0, 8));

    press(&mut editor, Key::ArrowDown);
    assert_eq!(editor.cursor(), Position::new(1, 2));

    press(&mut editor, Key::ArrowUp);
    assert_eq!(editor.cursor(), Position::new(0, 2));
}

#[test]
fn home_and_end_move_to_line_boundaries() {
    let mut editor = EditorWidget::new(TextBuffer::from_str("hello"));
    editor.set_cursor(Position::new(0, 3));

    press(&mut editor, Key::Home);
    assert_eq!(editor.cursor(), Position::new(0, 0));

    press(&mut editor, Key::End);
    assert_eq!(editor.cursor(), Position::new(0, 5));
}

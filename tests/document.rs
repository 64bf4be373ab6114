use editor_core::cursor::{Cursor, Position};
use editor_core::document::Document;
use editor_core::text::TextBuffer;

fn setup() -> Document {
    Document::new(TextBuffer::new().unwrap())
}

#[test]
fn test_newline_insertion_math() {
    let mut doc = setup();

    doc.insert("\n").unwrap();
    assert_eq!(doc.cursor.head, Position::new(1, 0), "Cursor should be at start of line 2");

    doc.insert("Hi\n").unwrap();
    assert_eq!(doc.cursor.head, Position::new(2, 0), "Cursor should be at start of line 3");
}

#[test]
fn test_undo_redo_newline_boundaries_fixed() {
    let mut doc = setup();

    doc.insert("Line1").unwrap();
    doc.insert("\nLine2").unwrap();
    doc.undo();

    let current_line = doc.text_buffer.get_line(0);
    assert_eq!(current_line.unwrap(), "Line1");
    assert_eq!(doc.cursor.head, Position::new(0, 5));
}

#[test]
fn test_get_line_stripped_edge_cases() {
    let mut doc = setup();

    doc.insert("\n").unwrap();
    assert_eq!(doc.text_buffer.get_line_stripped(0).unwrap(), "");

    doc.insert("Hello").unwrap();
    assert_eq!(doc.text_buffer.get_line_stripped(1).unwrap(), "Hello");

    doc.undo();
    doc.undo();
    doc.insert("First\nSecond\nThird").unwrap();
    assert_eq!(doc.text_buffer.get_line_stripped(0).unwrap(), "First");
    assert_eq!(doc.text_buffer.get_line_stripped(1).unwrap(), "Second");
    assert_eq!(doc.text_buffer.get_line_stripped(2).unwrap(), "Third");
}

#[test]
fn test_backspace_at_line_boundary() {
    let mut doc = setup();
    doc.insert("ABC\nDEF").unwrap();
    doc.cursor = Cursor::new(1, 0);

    doc.delete(true).unwrap();

    assert_eq!(doc.text_buffer.get_line_stripped(0).unwrap(), "ABCDEF");
    assert_eq!(doc.cursor.head, Position::new(0, 3));

    doc.undo();
    assert_eq!(doc.text_buffer.get_line_stripped(0).unwrap(), "ABC");
    assert_eq!(doc.text_buffer.get_line_stripped(1).unwrap(), "DEF");
    assert_eq!(doc.cursor.head, Position::new(1, 0));
}

#[test]
fn test_redo_restores_correct_cursor() {
    let mut doc = setup();
    doc.insert("Hello").unwrap();
    let pos_after_hello = doc.cursor.head;

    doc.undo();
    assert_eq!(doc.cursor.head, Position::new(0, 0));

    doc.redo();
    assert_eq!(doc.cursor.head, pos_after_hello);
    assert_eq!(doc.text_buffer.get_line_stripped(0).unwrap(), "Hello");
}

#[test]
fn test_replace_selection_across_lines() {
    let mut doc = setup();
    doc.insert("Hello\nWorld\nEnd").unwrap();

    doc.cursor = Cursor::new_selection(Position::new(0, 1), Position::new(2, 1));

    doc.insert("!").unwrap();

    let line = doc.text_buffer.get_line(0).unwrap();
    assert!(line.contains("H!nd"));
    assert_eq!(doc.cursor.head, Position::new(0, 2));

    doc.undo();
    assert_eq!(doc.text_buffer.get_line(1).unwrap().trim_end(), "World");
}

#[test]
fn test_backspace_at_start_of_line_wraps() {
    let mut doc = setup();
    doc.insert("A\nB").unwrap();
    doc.cursor = Cursor::new(1, 0);

    doc.delete(true).unwrap();

    let line = doc.text_buffer.get_line(0).unwrap();
    assert!(line.contains("AB"));
    assert_eq!(doc.cursor.head, Position::new(0, 1));

    doc.undo();
    assert_eq!(doc.cursor.head, Position::new(1, 0));
}

#[test]
fn test_delete_forward_at_end_of_line() {
    let mut doc = setup();
    doc.insert("A\nB").unwrap();
    doc.cursor = Cursor::new(0, 1);

    doc.delete(false).unwrap();

    let line = doc.text_buffer.get_line(0).unwrap();
    assert!(line.contains("AB"));

    doc.undo();
    assert_eq!(doc.cursor.head, Position::new(0, 1));
}

#[test]
fn test_consecutive_inserts_batching() {
    let mut doc = setup();
    doc.insert("a").unwrap();
    doc.insert("b").unwrap();
    doc.insert("c").unwrap();

    assert_eq!(doc.history.undo_stack.len(), 1);

    doc.undo();
    assert_eq!(doc.cursor.head, Position::new(0, 0));
    assert!(doc.text_buffer.get_line(0).is_none() || doc.text_buffer.get_line(0).unwrap().is_empty());
}

use editor_core::cursor::{Cursor, Position};

#[test]
fn test_cursor_creation() {
    let cursor = Cursor::new(5, 10);
    assert_eq!(cursor.anchor, Position::new(5, 10));
    assert_eq!(cursor.head, Position::new(5, 10));
    assert_eq!(cursor.preferred_column, Some(10));
}

#[test]
fn test_cursor_selection() {
    let anchor = Position::new(3, 5);
    let head = Position::new(6, 15);
    let cursor = Cursor::new_selection(anchor, head);

    assert_eq!(cursor.anchor, anchor);
    assert_eq!(cursor.head, head);
    assert_eq!(cursor.preferred_column, Some(15));
}

#[test]
fn test_cursor_no_selection() {
    let mut cursor = Cursor::new(2, 8);

    assert!(cursor.no_selection());
    cursor.set_head(Position::new(2, 10));
    assert!(!cursor.no_selection());
    cursor.clear_selection();
    assert!(cursor.no_selection());
}

#[test]
fn test_cursor_range() {
    let cursor = Cursor::new_selection(Position::new(4, 20), Position::new(2, 10));
    let (start, end) = cursor.range();

    assert_eq!(start, Position::new(2, 10));
    assert_eq!(end, Position::new(4, 20));
}

#[test]
fn test_cursor_invert() {
    let mut cursor = Cursor::new_selection(Position::new(1, 5), Position::new(3, 15));

    cursor.invert();
    assert_eq!(cursor.anchor, Position::new(3, 15));
    assert_eq!(cursor.head, Position::new(1, 5));

    let (start, end) = cursor.range();

    assert_eq!(start, Position::new(1, 5));
    assert_eq!(end, Position::new(3, 15));
    cursor.invert();
    assert_eq!(cursor.anchor, Position::new(1, 5));
    assert_eq!(cursor.head, Position::new(3, 15));

    let (start, end) = cursor.range();

    assert_eq!(start, Position::new(1, 5));
    assert_eq!(end, Position::new(3, 15));

    let mut cursor = Cursor::new(2, 8);

    cursor.invert();
    assert_eq!(cursor.anchor, Position::new(2, 8));
    assert_eq!(cursor.head, Position::new(2, 8));

    let (start, end) = cursor.range();

    assert_eq!(start, Position::new(2, 8));
    assert_eq!(end, Position::new(2, 8));
}

#[test]
fn cursor_start_end_follow_document_order() {
    let cursor = Cursor::new_selection(Position::new(3, 1), Position::new(3, 0));
    assert_eq!(cursor.start(), Position::new(3, 0));
    assert_eq!(cursor.end(), Position::new(3, 1));
    let origin = Cursor::default();
    assert_eq!(origin.head, Position::new(0, 0));
    assert_eq!(origin.preferred_column, None);
}

use editor_core::cursor::{Cursor, Position};
use editor_core::errors::TextBufferError;
use editor_core::text::{detect_line_ending, LineEnding, TextBuffer};

fn make_cursor(row: usize, col: usize) -> Cursor {
    let pos = Position { row, col };
    Cursor::new_selection(pos, pos)
}

fn make_selection(start_row: usize, start_col: usize, end_row: usize, end_col: usize) -> Cursor {
    Cursor::new_selection(Position { row: start_row, col: start_col }, Position { row: end_row, col: end_col })
}

#[test]
fn test_textbuffer_new() {
    let buffer = TextBuffer::new().expect("Failed to create new TextBuffer");

    assert!(buffer.path().is_none());
    assert!(!buffer.is_dirty());
    assert_eq!(buffer.save_target(), Err(TextBufferError::MissingPath));

    let bytes: Vec<u8> = buffer.iter_bytes().into_iter().flatten().copied().collect();
    assert_eq!(bytes, b"");
}

#[test]
fn test_get_line() {
    let mut text_buffer = TextBuffer::new().expect("Failed to create new TextBuffer");

    text_buffer.insert(&Cursor::default(), "hello, there\nhaha\nwoah").unwrap();

    let line1 = text_buffer.get_line(0);
    let line2 = text_buffer.get_line(1);
    let line3 = text_buffer.get_line(2);
    let line4 = text_buffer.get_line(3);

    assert_eq!(line1, Some(String::from("hello, there\n")));
    assert_eq!(line2, Some(String::from("haha\n")));
    assert_eq!(line3, Some(String::from("woah")));
    assert_eq!(line4, None);
}

#[test]
fn test_get_cursor_selection_logic() {
    let mut buffer = TextBuffer::new().unwrap();
    buffer.insert(&Cursor::default(), "Hello\nWorld").unwrap();

    let forward_cursor = Cursor::new_selection(Position::new(0, 1), Position::new(0, 5));
    assert_eq!(buffer.get_cursor_selection(&forward_cursor).unwrap(), Some("ello".to_string()));

    let backward_cursor = Cursor::new_selection(Position::new(1, 4), Position::new(1, 0));
    assert_eq!(buffer.get_cursor_selection(&backward_cursor).unwrap(), Some("Worl".to_string()));

    let multiline_cursor = Cursor::new_selection(Position::new(0, 4), Position::new(1, 2));
    assert_eq!(buffer.get_cursor_selection(&multiline_cursor).unwrap(), Some("o\nWo".to_string()));

    let empty_cursor = Cursor::new(0, 0);
    assert!(buffer.get_cursor_selection(&empty_cursor).unwrap().is_none());
}

#[test]
fn test_insert_basic_and_multiline() {
    let mut buffer = TextBuffer::new_with_text("Hello").unwrap();

    let cursor = make_cursor(0, 5);
    buffer.insert(&cursor, " World").unwrap();
    assert_eq!(buffer.contents(), "Hello World");

    let cursor = make_cursor(0, 5);
    buffer.insert(&cursor, "\nBrave\n").unwrap();
    assert_eq!(buffer.contents(), "Hello\nBrave\n World");
}

#[test]
fn test_insert_with_selection_replaces_text() {
    let mut buffer = TextBuffer::new_with_text("Hello World").unwrap();

    let cursor = make_selection(0, 6, 0, 11);

    buffer.insert(&cursor, "Rust").unwrap();
    assert_eq!(buffer.contents(), "Hello Rust");
}

#[test]
fn test_delete_selection_single_and_multiline() {
    let mut buffer = TextBuffer::new_with_text("Line 1\nLine 2\nLine 3").unwrap();

    let cursor = make_selection(1, 4, 1, 6);
    buffer.delete_selection(&cursor).unwrap();
    assert_eq!(buffer.contents(), "Line 1\nLine\nLine 3");

    let cursor = make_selection(0, 6, 2, 5);
    buffer.delete_selection(&cursor).unwrap();
    assert_eq!(buffer.contents(), "Line 13");
}

#[test]
fn test_delete_selection_backwards() {
    let mut buffer = TextBuffer::new_with_text("Hello World").unwrap();

    let cursor = make_selection(0, 11, 0, 6);
    buffer.delete_selection(&cursor).unwrap();

    assert_eq!(buffer.contents(), "Hello ");
}

#[test]
fn test_backspace_basic_and_wrapping() {
    let mut buffer = TextBuffer::new_with_text("A\nB").unwrap();

    let cursor = make_cursor(1, 1);
    buffer.backspace(&cursor).unwrap();
    assert_eq!(buffer.contents(), "A\n");

    let cursor = make_cursor(1, 0);
    buffer.backspace(&cursor).unwrap();
    assert_eq!(buffer.contents(), "A");
}

#[test]
fn test_backspace_at_document_start_does_nothing() {
    let mut buffer = TextBuffer::new_with_text("Hello").unwrap();
    let cursor = make_cursor(0, 0);

    buffer.backspace(&cursor).unwrap();

    assert_eq!(buffer.contents(), "Hello", "Backspacing at 0,0 should not modify the document");
}

#[test]
fn test_backspace_with_selection_acts_as_delete() {
    let mut buffer = TextBuffer::new_with_text("Hello World").unwrap();
    let cursor = make_selection(0, 0, 0, 6);

    buffer.backspace(&cursor).unwrap();
    assert_eq!(buffer.contents(), "World");
}

#[test]
fn test_delete_forward_basic_and_wrapping() {
    let mut buffer = TextBuffer::new_with_text("A\nB").unwrap();

    let cursor = make_cursor(0, 0);

    buffer.delete_forward(&cursor).unwrap();
    assert_eq!(buffer.contents(), "\nB");

    let cursor = make_cursor(0, 0);
    buffer.delete_forward(&cursor).unwrap();
    assert_eq!(buffer.contents(), "B");
}

#[test]
fn test_delete_forward_at_document_end_does_nothing() {
    let mut buffer = TextBuffer::new_with_text("Hello").unwrap();
    let cursor = make_cursor(0, 5);

    buffer.delete_forward(&cursor).unwrap();

    assert_eq!(
        buffer.contents(),
        "Hello",
        "Deleting forward at the end of the document should not modify it"
    );
}

#[test]
fn test_delete_forward_with_selection_acts_as_delete() {
    let mut buffer = TextBuffer::new_with_text("Hello World").unwrap();
    let cursor = make_selection(0, 6, 0, 11);

    buffer.delete_forward(&cursor).unwrap();
    assert_eq!(buffer.contents(), "Hello ");
}

#[test]
fn test_insert_returns_correct_position() {
    let mut buffer = TextBuffer::new().unwrap();
    let cursor = Cursor::default();

    let new_pos = buffer.insert(&cursor, "Rust").unwrap();
    assert_eq!(new_pos, Position::new(0, 4));

    let paste_cursor = Cursor::new(0, 4);
    let pos_after_paste = buffer.insert(&paste_cursor, "\nIs\nCool").unwrap();

    assert_eq!(pos_after_paste, Position::new(2, 4));
}

#[test]
fn test_delete_selection_returns_text_and_pos() {
    let mut buffer = TextBuffer::new().unwrap();
    buffer.insert(&Cursor::default(), "Delete Me").unwrap();

    let cursor = Cursor::new_selection(Position::new(0, 0), Position::new(0, 6));

    let (new_pos, deleted_text) = buffer.delete_selection(&cursor).unwrap();

    assert_eq!(deleted_text, "Delete");
    assert_eq!(new_pos, Position::new(0, 0));
    assert_eq!(buffer.get_line(0), Some(" Me".to_string()));
}

#[test]
fn test_backspace_returns_deleted_char() {
    let mut buffer = TextBuffer::new().unwrap();
    buffer.insert(&Cursor::default(), "Rust").unwrap();

    let cursor = Cursor::new(0, 4);
    let (new_pos, deleted_text) = buffer.backspace(&cursor).unwrap();

    assert_eq!(deleted_text, "t");
    assert_eq!(new_pos, Position::new(0, 3));
    assert_eq!(buffer.get_line(0), Some("Rus".to_string()));
}

#[test]
fn test_delete_forward_across_lines() {
    let mut buffer = TextBuffer::new().unwrap();
    buffer.insert(&Cursor::default(), "A\nB").unwrap();

    let cursor = Cursor::new(0, 1);
    let (new_pos, deleted_text) = buffer.delete_forward(&cursor).unwrap();

    assert_eq!(deleted_text, "\n");
    assert_eq!(new_pos, Position::new(0, 1));
    assert_eq!(buffer.get_line(0), Some("AB".to_string()));
}

#[test]
fn test_empty_delete_selection() {
    let mut buffer = TextBuffer::new().unwrap();
    buffer.insert(&Cursor::default(), "Safe").unwrap();

    let cursor = Cursor::new(0, 2);
    let (new_pos, deleted_text) = buffer.delete_selection(&cursor).unwrap();

    assert_eq!(deleted_text, "");
    assert_eq!(new_pos, Position::new(0, 2));
}

#[test]
fn test_replace_via_insert_position() {
    let mut buffer = TextBuffer::new().unwrap();
    buffer.insert(&Cursor::default(), "Replace Me").unwrap();

    let selection = Cursor::new_selection(Position::new(0, 0), Position::new(0, 7));

    let final_pos = buffer.insert(&selection, "Fixed").unwrap();

    assert_eq!(final_pos, Position::new(0, 5));
    assert_eq!(buffer.get_line(0), Some("Fixed Me".to_string()));
}

#[test]
fn delete_forward_last_byte_of_last_line() {
    let mut buffer = TextBuffer::new_with_text("Hello").unwrap();
    let (pos, gone) = buffer.delete_forward(&make_cursor(0, 4)).unwrap();
    assert_eq!(gone, "o");
    assert_eq!(pos, Position::new(0, 4));
    assert_eq!(buffer.contents(), "Hell");
}

#[test]
fn positions_past_a_line_are_refused() {
    let mut buffer = TextBuffer::new_with_text("ab\ncd").unwrap();
    assert_eq!(buffer.point_to_abs_offset(0, 3), Some(3));
    assert_eq!(buffer.point_to_abs_offset(0, 4), None);
    assert_eq!(buffer.point_to_abs_offset(2, 0), None);
    assert_eq!(buffer.insert(&make_cursor(0, 4), "x"), Err(TextBufferError::IndexOutOfBounds(0)));
    assert_eq!(
        buffer.get_cursor_selection(&make_selection(0, 0, 5, 0)),
        Err(TextBufferError::PositionToAbsIdxError)
    );
    assert_eq!(buffer.contents(), "ab\ncd");
    assert!(!buffer.is_dirty());
}

#[test]
fn stripped_lines_and_counts() {
    let buffer = TextBuffer::new_with_text("one\r\ntwo\nthree").unwrap();
    assert_eq!(buffer.line_ending, LineEnding::CRLF);
    assert_eq!(buffer.get_line_stripped(0), Some("one".to_string()));
    assert_eq!(buffer.get_line_stripped(1), Some("two".to_string()));
    assert_eq!(buffer.get_line_stripped(2), Some("three".to_string()));
    assert_eq!(buffer.get_line_stripped(3), None);
    assert_eq!(buffer.line_count(), 3);
    assert_eq!(buffer.byte_length(), 14);
    assert_eq!(buffer.get_line_len_at(1), Some(4));
    let mut lines = buffer.lines(1, 9);
    assert_eq!(lines.next(), Some((1, 5, 9)));
    assert_eq!(lines.next(), Some((2, 9, 14)));
    assert_eq!(lines.next(), None);
}

#[test]
fn line_ending_detection() {
    assert_eq!(detect_line_ending(b"abc"), LineEnding::LF);
    assert_eq!(detect_line_ending(b"a\r\nb\n"), LineEnding::CRLF);
    assert_eq!(detect_line_ending(b"a\nb\r\n"), LineEnding::LF);
    assert_eq!(detect_line_ending(b"a\rb"), LineEnding::LF);
    assert_eq!(detect_line_ending(b"a\rb\r\n"), LineEnding::CRLF);
    assert_eq!(detect_line_ending(b"\nx"), LineEnding::LF);
    assert_eq!(LineEnding::CRLF.as_str(), "\r\n");
    assert_eq!(LineEnding::LF.as_str(), "\n");
}

#[test]
fn finish_save_takes_the_saved_map() {
    let mut buffer = TextBuffer::new_with_text("Original text").unwrap();
    buffer.insert(&make_cursor(0, 13), " plus edits").unwrap();
    assert!(buffer.is_dirty());
    let written: Vec<u8> = buffer.iter_bytes().into_iter().flatten().copied().collect();
    assert_eq!(written, b"Original text plus edits");
    let saved = editor_core::mapped::MmapFile::from_bytes(&written).unwrap();
    buffer.finish_save(saved);
    assert!(!buffer.is_dirty());
    assert_eq!(buffer.contents(), "Original text plus edits");
    assert_eq!(buffer.line_count(), 1);
}

#[test]
fn pasting_many_lines_keeps_the_index_exact() {
    let mut buffer = TextBuffer::new_with_text("start\nend").unwrap();
    let mut paste = String::new();
    for i in 0..100 {
        paste.push_str(&format!("line {i}\n"));
    }
    buffer.insert(&make_cursor(1, 0), &paste).unwrap();
    assert_eq!(buffer.line_count(), 102);
    assert_eq!(buffer.get_line(58), Some("line 57\n".to_string()));
    assert_eq!(buffer.get_line(101), Some("end".to_string()));
}

use editor_core::cursor::{Cursor, Position};
use editor_core::enums::EditAction;
use editor_core::history::History;

fn assert_insert(action: &EditAction, expected_pos: Position, expected_text: &str) {
    match action {
        EditAction::Insert { pos, text } => {
            assert_eq!(*pos, expected_pos, "Insert position mismatch");
            assert_eq!(text, expected_text, "Insert text mismatch");
        }
        _ => panic!("Expected Insert action but found a different EditAction"),
    }
}

fn assert_delete(action: &EditAction, expected_start: Position, expected_end: Position, expected_text: &str) {
    match action {
        EditAction::Delete { pos: start, end, text } => {
            assert_eq!(*start, expected_start, "Delete start mismatch");
            assert_eq!(*end, expected_end, "Delete end mismatch");
            assert_eq!(text, expected_text, "Delete text mismatch");
        }
        _ => panic!("Expected Delete action but found a different EditAction"),
    }
}

fn empty_history() -> History {
    History { undo_stack: vec![], redo_stack: vec![] }
}

#[test]
fn test_insert_batching() {
    let mut history = empty_history();

    history.record_insert(Position::new(0, 0), "H", Cursor::new(0, 0), Cursor::new(0, 1)).unwrap();
    history.record_insert(Position::new(0, 1), "i", Cursor::new(0, 1), Cursor::new(0, 2)).unwrap();

    assert_eq!(history.undo_stack.len(), 1, "Should batch into a single transaction");

    let tx = &history.undo_stack[0];
    assert_eq!(tx.cursor_before, Cursor::new(0, 0));
    assert_eq!(tx.cursor_after, Cursor::new(0, 2));

    assert_insert(&tx.actions[0], Position::new(0, 0), "Hi");
}

#[test]
fn test_backspace_batching() {
    let mut history = empty_history();

    history
        .record_delete(Position::new(0, 1), Position::new(0, 2), "b", Cursor::new(0, 2), Cursor::new(0, 1))
        .unwrap();
    history
        .record_delete(Position::new(0, 0), Position::new(0, 1), "a", Cursor::new(0, 1), Cursor::new(0, 0))
        .unwrap();

    assert_eq!(history.undo_stack.len(), 1, "Should batch consecutive backspaces");

    let tx = &history.undo_stack[0];
    assert_delete(&tx.actions[0], Position::new(0, 0), Position::new(0, 2), "ab");
}

#[test]
fn test_forward_delete_batching() {
    let mut history = empty_history();

    history
        .record_delete(Position::new(0, 0), Position::new(0, 1), "a", Cursor::new(0, 0), Cursor::new(0, 0))
        .unwrap();
    history
        .record_delete(Position::new(0, 0), Position::new(0, 1), "b", Cursor::new(0, 0), Cursor::new(0, 0))
        .unwrap();

    assert_eq!(history.undo_stack.len(), 1, "Should batch consecutive forward deletes");

    let tx = &history.undo_stack[0];
    assert_delete(&tx.actions[0], Position::new(0, 0), Position::new(0, 2), "ab");
}

#[test]
fn test_record_replace() {
    let mut history = empty_history();

    history.record_replace(
        Position::new(0, 0),
        Position::new(0, 5),
        "apple",
        "p",
        Cursor::new_selection(Position::new(0, 0), Position::new(0, 5)),
        Cursor::new(0, 1),
    );

    assert_eq!(history.undo_stack.len(), 1);
    let tx = &history.undo_stack[0];
    assert_eq!(tx.actions.len(), 2);

    assert_delete(&tx.actions[0], Position::new(0, 0), Position::new(0, 5), "apple");
    assert_insert(&tx.actions[1], Position::new(0, 0), "p");
}

#[test]
fn test_replace_with_subsequent_insert_batching() {
    let mut history = empty_history();

    history.record_replace(
        Position::new(0, 0),
        Position::new(0, 5),
        "apple",
        "p",
        Cursor::new_selection(Position::new(0, 0), Position::new(0, 5)),
        Cursor::new(0, 1),
    );
    history.record_insert(Position::new(0, 1), "i", Cursor::new(0, 1), Cursor::new(0, 2)).unwrap();
    history.record_insert(Position::new(0, 2), "e", Cursor::new(0, 2), Cursor::new(0, 3)).unwrap();

    assert_eq!(history.undo_stack.len(), 1);
    let tx = &history.undo_stack[0];
    assert_eq!(tx.actions.len(), 2);

    assert_insert(&tx.actions[1], Position::new(0, 0), "pie");
}

#[test]
fn test_undo_redo_stack_movement() {
    let mut history = empty_history();

    history.record_insert(Position::new(0, 0), "A", Cursor::new(0, 0), Cursor::new(0, 1)).unwrap();

    let undone = history.undo().unwrap();
    assert_eq!(history.undo_stack.len(), 0);
    assert_eq!(history.redo_stack.len(), 1);

    let redone = history.redo().unwrap();
    assert_eq!(undone, redone);
    assert_eq!(history.undo_stack.len(), 1);
    assert_eq!(history.redo_stack.len(), 0);
}

#[test]
fn newline_breaks_typing_batch() {
    let mut history = empty_history();
    history.record_insert(Position::new(0, 0), "a", Cursor::new(0, 0), Cursor::new(0, 1)).unwrap();
    history.record_insert(Position::new(0, 1), "\n", Cursor::new(0, 1), Cursor::new(1, 0)).unwrap();
    assert_eq!(history.undo_stack.len(), 2);
    history.record_insert(Position::new(1, 0), "b", Cursor::new(1, 0), Cursor::new(1, 1)).unwrap();
    assert_eq!(history.undo_stack.len(), 3);
}

#[test]
fn cursor_motion_breaks_typing_batch() {
    let mut history = empty_history();
    history.record_insert(Position::new(0, 0), "a", Cursor::new(0, 0), Cursor::new(0, 1)).unwrap();
    history.record_insert(Position::new(0, 5), "b", Cursor::new(0, 5), Cursor::new(0, 6)).unwrap();
    assert_eq!(history.undo_stack.len(), 2);
}

#[test]
fn recording_clears_redo() {
    let mut history = empty_history();
    history.record_insert(Position::new(0, 0), "a", Cursor::new(0, 0), Cursor::new(0, 1)).unwrap();
    history.undo().unwrap();
    assert_eq!(history.redo_stack.len(), 1);
    history.record_delete(Position::new(0, 0), Position::new(0, 1), "x", Cursor::new(0, 1), Cursor::new(0, 0)).unwrap();
    assert_eq!(history.redo_stack.len(), 0);
    assert!(history.redo().is_none());
}

#[test]
fn forward_delete_column_overflow_is_an_error() {
    let mut history = empty_history();
    let far = Position::new(0, usize::MAX);
    history.record_delete(Position::new(0, 0), far, "a", Cursor::new(0, 0), Cursor::new(0, 0)).unwrap();
    let r = history.record_delete(Position::new(0, 0), Position::new(0, 1), "b", Cursor::new(0, 0), Cursor::new(0, 0));
    assert_eq!(r, Err(editor_core::enums::MathError::Overflow));
}

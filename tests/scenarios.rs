use editor_core::btree::BTreeLineIndex;
use editor_core::cursor::{Cursor, Position};
use editor_core::document::Document;
use editor_core::mapped::MmapFile;
use editor_core::text::TextBuffer;

fn contents(doc: &Document) -> String {
    doc.text_buffer.contents()
}

#[test]
fn scenario_split_insert() {
    let mut buffer = TextBuffer::new_with_text("hello world").unwrap();
    buffer.insert(&Cursor::new(0, 6), "cruel ").unwrap();
    assert_eq!(buffer.contents(), "hello cruel world");
    assert_eq!(buffer.line_count(), 1);
    assert_eq!(buffer.byte_length(), 17);
}

#[test]
fn scenario_newline_insert_updates_index() {
    let mut buffer = TextBuffer::new().unwrap();
    buffer.insert(&Cursor::new(0, 0), "ab\ncd").unwrap();
    assert_eq!(buffer.line_count(), 2);
    assert_eq!(buffer.point_to_abs_offset(0, 0), Some(0));
    assert_eq!(buffer.point_to_abs_offset(1, 0), Some(3));
    assert_eq!(buffer.get_line(0), Some("ab\n".to_string()));
    assert_eq!(buffer.get_line(1), Some("cd".to_string()));
}

#[test]
fn scenario_multi_line_delete_with_merge() {
    let mut buffer = TextBuffer::new_with_text("Line1\nLine2\nLine3\n").unwrap();
    let selection = Cursor::new_selection(Position::new(0, 4), Position::new(2, 0));
    let (_, gone) = buffer.delete_selection(&selection).unwrap();
    assert_eq!(gone, "1\nLine2\n");
    assert_eq!(buffer.contents(), "LineLine3\n");
    assert_eq!(buffer.line_count(), 2);
    assert_eq!(buffer.get_line(0), Some("LineLine3\n".to_string()));
}

#[test]
fn scenario_typing_batches_into_one_transaction() {
    let mut doc = Document::new(TextBuffer::new().unwrap());
    doc.insert("H").unwrap();
    doc.insert("i").unwrap();
    assert_eq!(doc.history.undo_stack.len(), 1);
    let tx = &doc.history.undo_stack[0];
    assert_eq!(tx.cursor_before.head, Position::new(0, 0));
    assert_eq!(tx.cursor_after.head, Position::new(0, 2));
    doc.undo();
    assert_eq!(contents(&doc), "");
}

#[test]
fn scenario_backspace_across_line_boundary() {
    let mut doc = Document::new(TextBuffer::new_with_text("A\nB").unwrap());
    doc.cursor = Cursor::new(1, 0);
    doc.delete(true).unwrap();
    assert_eq!(contents(&doc), "AB");
    assert_eq!(doc.text_buffer.line_count(), 1);
    assert_eq!(doc.cursor.head, Position::new(0, 1));
    doc.undo();
    assert_eq!(contents(&doc), "A\nB");
    assert_eq!(doc.cursor.head, Position::new(1, 0));
}

#[test]
fn length_and_line_count_agree_after_edits() {
    let mut buffer = TextBuffer::new_with_text("a\nbb\nccc").unwrap();
    buffer.insert(&Cursor::new(1, 1), "X\nY\n").unwrap();
    buffer.backspace(&Cursor::new(2, 0)).unwrap();
    let bytes: Vec<u8> = buffer.iter_bytes().into_iter().flatten().copied().collect();
    assert_eq!(buffer.byte_length() as usize, bytes.len());
    let newlines = bytes.iter().filter(|b| **b == b'\n').count();
    assert_eq!(buffer.line_count(), newlines + 1);
}

#[test]
fn summaries_stay_consistent_in_a_large_tree() {
    let mut text = Vec::new();
    for _ in 0..300 {
        text.extend_from_slice(b"xy\n");
    }
    let mut index = BTreeLineIndex::new(&text).unwrap();
    index.insert(10, b"1\n2\n3\n4\n5\n6\n7\n8\n9\n10\n11\n12\n13\n14\n15\n16\n17\n").unwrap();
    index.remove(100, 200).unwrap();
    let total: u64 = (0..index.line_count()).map(|i| index.get_line_length_at(i).unwrap()).sum();
    assert_eq!(total, index.byte_len());
}

#[test]
fn offset_line_round_trip() {
    let mut index = BTreeLineIndex::new(b"one\ntwo\n\nfour\n").unwrap();
    for line in 0..index.line_count() - 1 {
        let start = index.line_idx_to_abs_idx(line, true).unwrap();
        assert_eq!(index.abs_idx_to_line_idx(start, true), Some(line));
    }
}

#[test]
fn undo_all_then_redo_all() {
    let mut doc = Document::new(TextBuffer::new_with_text("base\n").unwrap());
    doc.cursor = Cursor::new(0, 4);
    doc.insert("!").unwrap();
    doc.cursor = Cursor::new(1, 0);
    doc.insert("next\nline").unwrap();
    doc.cursor = Cursor::new_selection(Position::new(0, 0), Position::new(0, 2));
    doc.insert("BA").unwrap();
    doc.cursor = Cursor::new(2, 4);
    doc.delete(true).unwrap();
    let after = contents(&doc);
    let n = doc.history.undo_stack.len();
    for _ in 0..n {
        doc.undo();
    }
    assert_eq!(contents(&doc), "base\n");
    for _ in 0..n {
        doc.redo();
    }
    assert_eq!(contents(&doc), after);
}

#[test]
fn selection_replacement_starts_a_transaction() {
    let mut doc = Document::new(TextBuffer::new_with_text("apple").unwrap());
    doc.cursor = Cursor::new(0, 5);
    doc.insert("s").unwrap();
    doc.cursor = Cursor::new_selection(Position::new(0, 0), Position::new(0, 1));
    doc.insert("A").unwrap();
    assert_eq!(doc.history.undo_stack.len(), 2);
    assert_eq!(contents(&doc), "Apples");
}

#[test]
fn editor_state_rebuilds_its_index() {
    let mapped = MmapFile::from_bytes(b"one\ntwo").unwrap();
    let mut state = editor_core::state::EditorState::open(mapped).unwrap();
    assert_eq!(state.line_index.line_count(), 2);
    state.piece_table.insert(3, b"\nand a half").unwrap();
    state.rebuild_index().unwrap();
    assert_eq!(state.line_index.line_count(), 3);
    assert_eq!(state.line_index.get_line_length_at(1), Some(11));
}

#[test]
fn summary_can_be_changed_in_place() {
    let mut node = editor_core::node::Node::Leaf(editor_core::node::LeafNode::default());
    node.summary_mut().byte_len = 7;
    assert_eq!(node.summary().byte_len, 7);
    assert_eq!(node.summary().line_count, 1);
}

#[test]
fn backspaces_batch_through_the_document() {
    let mut doc = Document::new(TextBuffer::new_with_text("abc").unwrap());
    doc.cursor = Cursor::new(0, 3);
    doc.delete(true).unwrap();
    doc.delete(true).unwrap();
    assert_eq!(contents(&doc), "a");
    assert_eq!(doc.history.undo_stack.len(), 1);
    doc.undo();
    assert_eq!(contents(&doc), "abc");
    assert_eq!(doc.cursor.head, Position::new(0, 3));
    doc.redo();
    assert_eq!(contents(&doc), "a");
    assert!(doc.text_buffer.is_dirty());
}

#[test]
fn replacement_undo_and_redo() {
    let mut doc = Document::new(TextBuffer::new_with_text("one two").unwrap());
    doc.cursor = Cursor::new_selection(Position::new(0, 4), Position::new(0, 7));
    doc.insert("three\nfour").unwrap();
    assert_eq!(contents(&doc), "one three\nfour");
    doc.undo();
    assert_eq!(contents(&doc), "one two");
    doc.redo();
    assert_eq!(contents(&doc), "one three\nfour");
}

#[test]
fn chunks_follow_pieces_and_cache_clears() {
    let mut buffer = TextBuffer::new_with_text("abc").unwrap();
    buffer.insert(&Cursor::new(0, 1), "X").unwrap();
    assert_eq!(buffer.iter_bytes().len(), 3);
    let mut index = BTreeLineIndex::new(b"a\nb\n").unwrap();
    index.line_idx_to_abs_idx(1, false);
    assert!(index.cache.is_some());
    index.remove(0, 1).unwrap();
    assert!(index.cache.is_none());
}

use editor_core::enums::{BufferKind, Edit};
use editor_core::mapped::MmapFile;
use editor_core::piece::Piece;
use editor_core::piece_table::{PieceTable, SliceOf, SliceOfWithStartEnd, BASELINE_CAPACITY};

fn pt_from_str(s: &str) -> PieceTable {
    PieceTable::new(MmapFile::from_bytes(s.as_bytes()).unwrap()).unwrap()
}

fn create_mock_mmap(content: &[u8]) -> MmapFile {
    MmapFile::from_bytes(content).unwrap()
}

fn text_of(pt: &PieceTable) -> Vec<u8> {
    pt.get_bytes_at(0, pt.len()).unwrap()
}

#[test]
fn new_len_matches_original() {
    let pt = pt_from_str("hello");

    assert_eq!(pt.len(), 5);
}

#[test]
fn insert_middle() {
    let mut pt = pt_from_str("helo");

    pt.insert(3, b"l").unwrap();
    assert_eq!(text_of(&pt), b"hello");
}

#[test]
fn insert_start_end() {
    let mut pt = pt_from_str("world");

    pt.insert(0, b"hello ").unwrap();
    pt.insert(pt.len(), b"!").unwrap();
    assert_eq!(text_of(&pt), b"hello world!");
}

#[test]
fn delete_middle() {
    let mut pt = pt_from_str("hello cruel world");

    pt.delete(5, 6).unwrap();

    assert_eq!(text_of(&pt), b"hello world");
}

#[test]
fn undo_redo_insert() {
    let mut pt = pt_from_str("abc");

    pt.insert(1, b"X").unwrap();
    pt.undo().unwrap();
    assert_eq!(text_of(&pt), b"abc");
    pt.redo().unwrap();
    assert_eq!(text_of(&pt), b"aXbc");
}

#[test]
fn undo_redo_delete() {
    let mut pt = pt_from_str("abcdef");

    pt.delete(2, 2).unwrap();
    assert_eq!(text_of(&pt), b"abef");
    pt.undo().unwrap();
    assert_eq!(text_of(&pt), b"abcdef");
    pt.redo().unwrap();
    assert_eq!(text_of(&pt), b"abef");
}

#[test]
fn test_undo_redo_multiple_inserts() {
    let mut pt = pt_from_str("");

    pt.insert(0, b"Hello").unwrap();
    assert_eq!(text_of(&pt), b"Hello");
    pt.insert(5, b"World").unwrap();
    assert_eq!(text_of(&pt), b"HelloWorld");
    pt.undo().unwrap();
    assert_eq!(text_of(&pt), b"Hello");
    pt.undo().unwrap();
    assert_eq!(text_of(&pt), b"");
    pt.redo().unwrap();
    assert_eq!(text_of(&pt), b"Hello", "Failed to redo 'Hello' correctly");
    pt.redo().unwrap();
    assert_eq!(text_of(&pt), b"HelloWorld", "Failed to redo 'World' correctly");
}

#[test]
fn test_iter_bytes_interleaved_pieces() {
    let mmap = create_mock_mmap(b"Hello world");
    let mut pt = PieceTable::new(mmap).unwrap();

    pt.insert(6, b"beautiful ").unwrap();
    pt.insert_last(0, b"!").unwrap();

    let bytes = pt.iter_bytes().into_iter().flatten().copied().collect::<Vec<u8>>();
    let result_string = String::from_utf8(bytes).unwrap();

    assert_eq!(result_string, "Hello beautiful world!");
}

#[test]
fn test_iter_bytes_empty_document() {
    let mmap = create_mock_mmap(b"");
    let pt = PieceTable::new(mmap).unwrap();

    let bytes = pt.iter_bytes().into_iter().flatten().copied().collect::<Vec<u8>>();

    assert_eq!(bytes, b"");
    assert!(bytes.is_empty(), "Iterating an empty document should yield 0 bytes");
}

#[test]
fn test_reset_to_mmap_normal_save() {
    let old_mmap = create_mock_mmap(b"Old text");
    let mut pt = PieceTable::new(old_mmap).unwrap();

    assert_eq!(pt.buf.capacity(), BASELINE_CAPACITY, "Initial capacity should be BASELINE_CAPACITY");

    let new_content = b"Old some ";
    let new_mmap = create_mock_mmap(new_content);

    pt.reset_to_mmap(new_mmap);

    assert_eq!(pt.buf.len(), 0, "Append buffer length must be cleared");
    assert_eq!(
        pt.buf.capacity(),
        BASELINE_CAPACITY,
        "Capacity should be BASELINE_CAPACITY because it never grew"
    );

    assert_eq!(pt.pieces.len(), 1, "Pieces must be collapsed to exactly 1");
    assert_eq!(pt.pieces[0].buf_kind, BufferKind::Original, "Collapsed piece must point to Original");
    assert_eq!(
        (pt.pieces[0].start, pt.pieces[0].end),
        (0, 9),
        "Collapsed piece range must perfectly match the new file size"
    );

    assert!(pt.undo_stack.is_empty(), "Undo stack must be cleared to prevent out-of-bounds panics");
    assert!(pt.redo_stack.is_empty(), "Redo stack must be cleared");
}

#[test]
fn test_reset_to_mmap_large_insert_shrinks_to_baseline() {
    let old_mmap = create_mock_mmap(b"Old text");
    let mut pt = PieceTable::new(old_mmap).unwrap();

    let large_paste_size = BASELINE_CAPACITY * 2;
    let large_paste = vec![b'A'; large_paste_size];

    pt.insert(8, &large_paste).unwrap();

    assert!(pt.buf.capacity() >= large_paste_size, "Buffer capacity must have grown past BASELINE_CAPACITY");

    let new_content = b"Old text + a bunch of A's...";
    let new_mmap = create_mock_mmap(new_content);

    pt.reset_to_mmap(new_mmap);

    assert_eq!(pt.buf.len(), 0, "Append buffer length must be cleared");
    assert_eq!(
        pt.buf.capacity(),
        BASELINE_CAPACITY,
        "Buffer capacity must be shrunk down to exactly BASELINE_CAPACITY"
    );
}

#[test]
fn test_reset_to_mmap_empty_file_edge_case() {
    let old_mmap = create_mock_mmap(b"Something");
    let mut pt = PieceTable::new(old_mmap).unwrap();

    pt.pieces.clear();

    let new_mmap = create_mock_mmap(b"");

    pt.reset_to_mmap(new_mmap);

    // No piece may be empty, so an empty file is spelled by no piece at all.
    assert_eq!(pt.pieces.len(), 0);
    assert_eq!(pt.len(), 0);

    assert_eq!(
        pt.buf.capacity(),
        BASELINE_CAPACITY,
        "Capacity must be maintained at BASELINE_CAPACITY even for empty files"
    );

    let bytes: Vec<u8> = pt.iter_bytes().into_iter().flatten().copied().collect();
    assert!(bytes.is_empty(), "Iterating a 0-byte collapsed piece should yield no bytes");
}

#[test]
fn split_insert_scenario() {
    let mut pt = pt_from_str("hello world");
    pt.insert(6, b"cruel ").unwrap();
    assert_eq!(text_of(&pt), b"hello cruel world");
    assert_eq!(pt.len(), 17);
}

#[test]
fn undo_across_split_restores_layout() {
    let mut pt = pt_from_str("abcdef");
    pt.insert(3, b"X").unwrap();
    assert_eq!(text_of(&pt), b"abcXdef");
    assert_eq!(pt.pieces.len(), 3);
    pt.undo().unwrap();
    assert_eq!(text_of(&pt), b"abcdef");
    assert_eq!(pt.pieces.len(), 1);
    assert_eq!(pt.pieces[0].buf_kind, BufferKind::Original);
    assert_eq!((pt.pieces[0].start, pt.pieces[0].end), (0, 6));
    pt.redo().unwrap();
    assert_eq!(text_of(&pt), b"abcXdef");
}

#[test]
fn typing_extends_the_last_add_piece() {
    let mut pt = pt_from_str("");
    pt.insert(0, b"a").unwrap();
    pt.insert(1, b"b").unwrap();
    pt.insert(2, b"c").unwrap();
    assert_eq!(pt.pieces.len(), 1);
    assert_eq!(text_of(&pt), b"abc");
}

#[test]
fn delete_records_removed_pieces() {
    let mut pt = pt_from_str("abcdef");
    pt.insert(3, b"XY").unwrap();
    pt.delete(2, 3).unwrap();
    assert_eq!(text_of(&pt), b"abdef");
    match pt.undo_stack.last().unwrap() {
        Edit::Delete { pos, len, removed } => {
            assert_eq!((*pos, *len), (2, 3));
            assert_eq!(removed.len(), 2);
            assert_eq!(removed[0].buf_kind, BufferKind::Original);
            assert_eq!((removed[0].start, removed[0].end), (2, 3));
            assert_eq!(removed[1].buf_kind, BufferKind::Add);
            assert_eq!((removed[1].start, removed[1].end), (0, 2));
        }
        _ => panic!("expected a deletion"),
    }
    pt.undo().unwrap();
    assert_eq!(text_of(&pt), b"abcXYdef");
}

#[test]
fn errors_leave_the_text_alone() {
    let mut pt = pt_from_str("abc");
    assert_eq!(pt.insert(4, b"x"), Err(editor_core::enums::MathError::OutOfBounds(4)));
    assert_eq!(pt.delete(2, 2), Err(editor_core::enums::MathError::OutOfBounds(3)));
    assert_eq!(pt.insert_last(4, b"x"), Err(editor_core::enums::MathError::Overflow));
    assert_eq!(text_of(&pt), b"abc");
    assert!(pt.undo().is_ok());
    assert_eq!(text_of(&pt), b"abc");
}

#[test]
fn locate_reports_boundaries_on_the_left() {
    let mut pt = pt_from_str("abc");
    pt.insert(3, b"de").unwrap();
    assert_eq!(pt.locate(0), (0, 0));
    assert_eq!(pt.locate(3), (0, 3));
    assert_eq!(pt.locate(4), (1, 1));
    assert_eq!(pt.locate(5), (2, 0));
}

#[test]
fn get_bytes_at_clips_at_the_end() {
    let pt = pt_from_str("hello");
    assert_eq!(pt.get_bytes_at(3, 10).unwrap(), b"lo");
    assert_eq!(pt.get_bytes_at(9, 1).unwrap(), b"");
    assert_eq!(pt.get_string(1, 3).unwrap(), "ell");
    assert!(!pt.is_empty());
}

#[test]
fn chunks_agree_with_full_read() {
    let mut pt = pt_from_str("one two");
    pt.insert(3, b" and").unwrap();
    pt.delete(0, 1).unwrap();
    let chunks: Vec<u8> = pt.iter_bytes().into_iter().flatten().copied().collect();
    assert_eq!(chunks, pt.get_bytes_at(0, pt.len()).unwrap());
}

#[test]
fn mapped_file_access() {
    let m = MmapFile::from_bytes(b"abcdef").unwrap();
    assert_eq!(m.len(), 6);
    assert!(!m.is_empty());
    assert_eq!(m.get_bytes_exact(2, 3), Some(&b"cde"[..]));
    assert_eq!(m.get_bytes_exact(4, 3), None);
    assert_eq!(m.get_bytes_exact(usize::MAX, 3), None);
    assert_eq!(m.get_bytes_clamped(4, 10), b"ef");
    assert_eq!(m.get_bytes_clamped(7, 1), b"");
    assert_eq!(m.as_slice(), b"abcdef");
}

#[test]
fn slice_of_reads_the_right_store() {
    let mut pt = pt_from_str("abcdef");
    pt.insert(6, b"XYZ").unwrap();
    let orig = Piece { buf_kind: BufferKind::Original, start: 1, end: 4 };
    let add = Piece { buf_kind: BufferKind::Add, start: 1, end: 3 };
    assert_eq!(SliceOf::slice_of(&pt, &orig).unwrap(), b"bcd");
    assert_eq!(SliceOf::slice_of(&pt, &add).unwrap(), b"YZ");
    assert_eq!(SliceOfWithStartEnd::slice_of(&pt, &add, 0, 1).unwrap(), b"X");
    assert!(SliceOfWithStartEnd::slice_of(&pt, &add, 2, 9).is_err());
    assert_eq!(orig.len(), 3);
    assert!(!orig.is_empty());
}

#[test]
fn undo_of_middle_delete_restores_layout() {
    let mut pt = pt_from_str("abcdef");
    pt.delete(2, 2).unwrap();
    assert_eq!(pt.pieces.len(), 2);
    pt.undo().unwrap();
    assert_eq!(text_of(&pt), b"abcdef");
    assert_eq!(pt.pieces.len(), 1);
    assert_eq!((pt.pieces[0].start, pt.pieces[0].end), (0, 6));
}

#[test]
fn typing_at_the_end_extends_one_piece() {
    let mut pt = pt_from_str("ab");
    pt.insert(2, b"c").unwrap();
    pt.insert(3, b"d").unwrap();
    assert_eq!(pt.pieces.len(), 2);
    assert_eq!(pt.pieces[1].buf_kind, BufferKind::Add);
    assert_eq!((pt.pieces[1].start, pt.pieces[1].end), (0, 2));
}

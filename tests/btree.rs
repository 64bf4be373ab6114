use editor_core::btree::{BTreeLineIndex, SearchCache};

#[test]
fn test_new_empty() {
    let mut btree = BTreeLineIndex::new(b"").expect("Failed to create empty btree");

    assert_eq!(btree.get_line_length_at(0), Some(0));
    assert_eq!(btree.line_idx_to_abs_idx(0, false), Some(0));
    // The offset of an empty document's only line is its end, where no
    // byte lies.
    assert_eq!(btree.abs_idx_to_line_idx(0, false), None);
}

#[test]
fn test_new_single_line() {
    let text = b"Hello, World!";
    let mut btree = BTreeLineIndex::new(text).expect("Failed to create btree");

    assert_eq!(btree.get_line_length_at(0), Some(13));
    assert_eq!(btree.line_idx_to_abs_idx(0, false), Some(0));

    assert_eq!(btree.get_line_length_at(1), None);
    assert_eq!(btree.line_idx_to_abs_idx(1, false), None);
}

#[test]
fn test_new_multiple_lines() {
    let text = b"Line1\nLine2\nEnd";
    let mut btree = BTreeLineIndex::new(text).expect("Failed to create btree");

    assert_eq!(btree.get_line_length_at(0), Some(6));
    assert_eq!(btree.get_line_length_at(1), Some(6));
    assert_eq!(btree.get_line_length_at(2), Some(3));

    assert_eq!(btree.line_idx_to_abs_idx(0, false), Some(0));
    assert_eq!(btree.line_idx_to_abs_idx(1, false), Some(6));
    assert_eq!(btree.line_idx_to_abs_idx(2, false), Some(12));

    assert_eq!(btree.abs_idx_to_line_idx(0, false), Some(0));
    assert_eq!(btree.abs_idx_to_line_idx(5, false), Some(0));
    assert_eq!(btree.abs_idx_to_line_idx(6, false), Some(1));
    assert_eq!(btree.abs_idx_to_line_idx(14, false), Some(2));
}

#[test]
fn test_new_trailing_newline() {
    let text = b"A\n";
    let btree = BTreeLineIndex::new(text).expect("Failed to create btree");

    assert_eq!(btree.get_line_length_at(0), Some(2));
    // The empty line after a final newline is a line of its own.
    assert_eq!(btree.get_line_length_at(1), Some(0));
    assert_eq!(btree.get_line_length_at(2), None);
}

#[test]
fn test_cache_population_and_busting() {
    let mut btree = BTreeLineIndex::new(b"a\nb\nc\n").expect("Failed to create btree");

    assert!(btree.cache.is_none());

    assert_eq!(btree.line_idx_to_abs_idx(1, false), Some(2));

    let cache_val = btree.cache.expect("Cache should be populated");
    assert_eq!(cache_val.line_idx, 1);
    assert_eq!(cache_val.byte_offset, 2);

    btree.cache = Some(SearchCache { line_idx: 1, byte_offset: 999 });

    assert_eq!(btree.line_idx_to_abs_idx(1, false), Some(999));

    assert_eq!(btree.line_idx_to_abs_idx(1, true), Some(2));

    let fixed_cache = btree.cache.unwrap();
    assert_eq!(fixed_cache.line_idx, 1);
    assert_eq!(fixed_cache.byte_offset, 2);
}

#[test]
fn test_insert_clears_cache() {
    let mut btree = BTreeLineIndex::new(b"hello").expect("Failed to create btree");

    btree.line_idx_to_abs_idx(0, false);
    assert!(btree.cache.is_some());

    btree.insert(5, b" world").expect("Failed to insert");
    assert!(btree.cache.is_none());
}

fn assert_line_len(btree: &BTreeLineIndex, line: usize, expected: u64) {
    assert_eq!(btree.get_line_length_at(line), Some(expected), "Line {line} length mismatch");
}

#[test]
fn test_remove_zero_len() {
    let mut btree = BTreeLineIndex::new(b"123\n456\n").unwrap();

    btree.remove(2, 0).expect("Remove failed");

    assert_line_len(&btree, 0, 4);
    assert_line_len(&btree, 1, 4);
}

#[test]
fn test_remove_within_single_line() {
    let mut btree = BTreeLineIndex::new(b"Hello\nWorld\n").unwrap();

    btree.remove(1, 2).unwrap();

    assert_line_len(&btree, 0, 4);
    assert_line_len(&btree, 1, 6);
}

#[test]
fn test_remove_merge_two_lines() {
    let mut btree = BTreeLineIndex::new(b"A\nB\n").unwrap();

    // "A\nB\n" becomes "AB\n": one line, then the empty line after it.
    btree.remove(1, 1).unwrap();

    assert_line_len(&btree, 0, 3);
    assert_eq!(btree.get_line_length_at(1), Some(0));
    assert_eq!(btree.get_line_length_at(2), None);
}

#[test]
fn test_remove_multi_line_span() {
    let mut btree = BTreeLineIndex::new(b"Line1\nLine2\nLine3\n").unwrap();

    btree.remove(4, 8).unwrap();

    assert_line_len(&btree, 0, 10);
    assert_eq!(btree.get_line_length_at(1), Some(0));
    assert_eq!(btree.get_line_length_at(2), None);
}

#[test]
fn test_remove_stress_test() {
    let mut text = Vec::with_capacity(10000);
    for _ in 0..1000 {
        text.extend_from_slice(b"123456789\n");
    }
    let mut btree = BTreeLineIndex::new(&text).unwrap();

    btree.remove(2005, 5000).unwrap();

    assert_line_len(&btree, 0, 10);
    assert_line_len(&btree, 199, 10);
    assert_line_len(&btree, 200, 10);
    assert_line_len(&btree, 499, 10);
    // After the 500 full lines comes the empty line after the final newline.
    assert_eq!(btree.get_line_length_at(500), Some(0));
    assert_eq!(btree.get_line_length_at(501), None);
}

#[test]
fn insert_out_of_bounds_is_refused() {
    let mut btree = BTreeLineIndex::new(b"abc").unwrap();
    assert_eq!(btree.insert(4, b"x"), Err(editor_core::enums::MathError::OutOfBounds(3)));
    assert_line_len(&btree, 0, 3);
}

#[test]
fn remove_past_end_is_refused() {
    let mut btree = BTreeLineIndex::new(b"abc").unwrap();
    assert_eq!(btree.remove(2, 5), Err(editor_core::enums::MathError::OutOfBounds(3)));
    assert_eq!(btree.remove(u64::MAX, 5), Err(editor_core::enums::MathError::Overflow));
}

#[test]
fn remove_to_end_of_text() {
    let mut btree = BTreeLineIndex::new(b"ab\ncd").unwrap();
    btree.remove(1, 4).unwrap();
    assert_line_len(&btree, 0, 1);
    assert_eq!(btree.line_count(), 1);
    assert_eq!(btree.byte_len(), 1);
}

#[test]
fn many_lines_split_and_query() {
    let mut text = Vec::new();
    for i in 0..500u32 {
        text.extend_from_slice(format!("{i}\n").as_bytes());
    }
    let mut btree = BTreeLineIndex::new(&text).unwrap();
    assert_eq!(btree.line_count(), 501);
    btree.insert(0, b"x\ny\nz\n").unwrap();
    assert_eq!(btree.line_count(), 504);
    assert_eq!(btree.line_idx_to_abs_idx(3, true), Some(6));
    assert_eq!(btree.abs_idx_to_line_idx(6, true), Some(3));
    let mut lines = btree.lines(2, 4);
    assert_eq!(lines.next(), Some((2, 4, 6)));
    assert_eq!(lines.next(), Some((3, 6, 8)));
    assert_eq!(lines.next(), None);
}

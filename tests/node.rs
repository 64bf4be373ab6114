use editor_core::btree::BTreeLineIndex;
use editor_core::enums::MathError;
use editor_core::node::{InternalNode, LeafNode, LineSummary, Node};

fn create_empty_leaf() -> LeafNode {
    LeafNode { summary: LineSummary { line_count: 0, byte_len: 0 }, line_lengths: Vec::new() }
}

fn create_empty_internal() -> InternalNode {
    InternalNode { summary: LineSummary { line_count: 0, byte_len: 0 }, children: Vec::new() }
}

#[test]
fn test_leaf_add_child_no_newlines() {
    let mut leaf = create_empty_leaf();

    let split = leaf.add_child(0, b"Hello").unwrap();

    assert!(split.is_none());
    // The summary counts the one line the leaf now holds.
    assert_eq!(leaf.summary.line_count, 1);
    assert_eq!(leaf.summary.byte_len, 5);
    assert_eq!(leaf.line_lengths, vec![5]);
}

#[test]
fn test_leaf_add_child_with_newlines() {
    let mut leaf = create_empty_leaf();

    let split = leaf.add_child(0, b"Hello\nWorld\nRust").unwrap();

    assert!(split.is_none());
    assert_eq!(leaf.summary.byte_len, 16);
    assert_eq!(leaf.summary.line_count, 3);
    assert_eq!(leaf.line_lengths, vec![6, 6, 4]);
}

#[test]
fn test_leaf_split_if_needed() {
    let mut leaf = create_empty_leaf();
    let bytes = b"A\nA\nA\nA\nA\nA\nA\nA\nA\nA\nA\nA\nA\nA\nA\nA\nA\nA\n";
    let split_result = leaf.add_child(0, bytes).unwrap();

    assert!(split_result.is_some());

    let right_node = split_result.unwrap();

    assert_eq!(leaf.line_lengths.len(), 9);
    assert_eq!(leaf.summary.line_count, 9);
    assert_eq!(leaf.summary.byte_len, 18);
    assert_eq!(right_node.line_lengths.len(), 10);
    assert_eq!(right_node.summary.line_count, 10);
    assert_eq!(right_node.summary.byte_len, 18);
}

#[test]
fn test_leaf_set_line_length() {
    let mut leaf = create_empty_leaf();
    leaf.add_child(0, b"Line1\nLine2\nLine3").unwrap();

    assert_eq!(leaf.summary.line_count, 3);
    assert_eq!(leaf.summary.byte_len, 17);

    let diff = leaf.set_line_length(1, 10).unwrap();

    assert_eq!(diff, 4);
    assert_eq!(leaf.line_lengths[1], 10);
    assert_eq!(leaf.summary.byte_len, 21);
}

#[test]
fn test_leaf_set_line_length_out_of_bounds() {
    let mut leaf = create_empty_leaf();

    leaf.add_child(0, b"Line1").unwrap();

    let result = leaf.set_line_length(5, 10);

    assert!(matches!(result, Err(MathError::OutOfBounds(_) | _)));
    assert_eq!(result, Err(MathError::OutOfBounds(1)));
}

#[test]
fn test_internal_set_line_length() {
    let mut leaf1 = create_empty_leaf();

    leaf1.add_child(0, b"A\nB\n").unwrap();

    assert_eq!(leaf1.summary.line_count, 3);
    assert_eq!(leaf1.summary.byte_len, 4);

    let mut leaf2 = create_empty_leaf();

    leaf2.add_child(0, b"C\nD\nE\n").unwrap();

    assert_eq!(leaf2.summary.line_count, 4);
    assert_eq!(leaf2.summary.byte_len, 6);

    let mut internal = create_empty_internal();

    internal.add_leaf_child_node(leaf1);
    internal.add_leaf_child_node(leaf2);

    assert_eq!(internal.summary.line_count, 7);
    assert_eq!(internal.summary.byte_len, 10);

    let diff = internal.set_line_length(3, 5).unwrap();

    assert_eq!(diff, 3);
    assert_eq!(internal.summary.byte_len, 13);

    if let Node::Leaf(l) = &internal.children[1] {
        assert_eq!(l.line_lengths[0], 5);
    } else {
        panic!("Expected LeafNode");
    }
}

#[test]
fn test_leaf_remove_line_range() {
    let mut leaf = create_empty_leaf();

    leaf.add_child(0, b"A\nB\nC\nD\nE").unwrap();
    assert_eq!(leaf.summary.byte_len, 9);
    assert_eq!(leaf.summary.line_count, 5);

    let removed_bytes = leaf.remove_line_range(1, 3);

    assert_eq!(removed_bytes, 6);
    assert_eq!(leaf.line_lengths, vec![2, 1]);
    assert_eq!(leaf.summary.line_count, 2);
    assert_eq!(leaf.summary.byte_len, 3);
}

#[test]
fn test_internal_remove_line_range() {
    let mut leaf1 = create_empty_leaf();

    leaf1.add_child(0, b"1\n2\n").unwrap();
    assert_eq!(leaf1.summary.byte_len, 4);
    assert_eq!(leaf1.summary.line_count, 3);

    let mut leaf2 = create_empty_leaf();

    leaf2.add_child(0, b"3\n4\n").unwrap();
    assert_eq!(leaf2.summary.byte_len, 4);
    assert_eq!(leaf2.summary.line_count, 3);

    let mut internal = create_empty_internal();

    internal.add_leaf_child_node(leaf1);
    internal.add_leaf_child_node(leaf2);
    let removed_bytes = internal.remove_line_range(1, 3).unwrap();

    assert_eq!(internal.children[0].summary().line_count, 1);
    assert_eq!(removed_bytes, 4);
    assert_eq!(internal.summary.line_count, 3);
    assert_eq!(internal.summary.byte_len, 4);
    assert_eq!(internal.children.len(), 2);

    if let Node::Leaf(l) = &internal.children[0] {
        assert_eq!(l.line_lengths.len(), 1);
    }
}

#[test]
fn test_internal_remove_culls_empty_nodes() {
    let mut leaf1 = create_empty_leaf();

    leaf1.add_child(0, b"1\n").unwrap();
    assert_eq!(leaf1.summary.byte_len, 2);
    assert_eq!(leaf1.summary.line_count, 2);

    let mut leaf2 = create_empty_leaf();

    leaf2.add_child(0, b"2\n").unwrap();
    assert_eq!(leaf1.summary.byte_len, 2);
    assert_eq!(leaf1.summary.line_count, 2);

    let mut internal = create_empty_internal();

    internal.add_leaf_child_node(leaf1);
    internal.add_leaf_child_node(leaf2);

    internal.remove_line_range(0, 1).unwrap();
    assert_eq!(internal.children.len(), 1);
    assert_eq!(internal.summary.line_count, 2);

    if let Node::Leaf(l) = &internal.children[0] {
        assert_eq!(l.line_lengths.len(), 2);
        assert_eq!(l.summary.byte_len, 2);
        assert_eq!(l.line_lengths, vec![2, 0]);
    }
}

fn two_leaves() -> InternalNode {
    let mut leaf1 = create_empty_leaf();
    leaf1.add_child(0, b"1\n2\n").unwrap();
    let mut leaf2 = create_empty_leaf();
    leaf2.add_child(0, b"3\n4\n").unwrap();
    let mut internal = create_empty_internal();
    internal.add_leaf_child_node(leaf1);
    internal.add_leaf_child_node(leaf2);
    internal
}

#[test]
fn test_get_line_length() {
    let mut leaf1 = create_empty_leaf();

    leaf1.add_child(0, b"1\n2\n").unwrap();
    assert_eq!(leaf1.summary.byte_len, 4);
    assert_eq!(leaf1.summary.line_count, 3);
    assert_eq!(leaf1.get_line_length_at(0).unwrap(), 2);
    assert_eq!(leaf1.get_line_length_at(1).unwrap(), 2);
    assert_eq!(leaf1.get_line_length_at(2).unwrap(), 0);
    assert_eq!(leaf1.get_line_length_at(3), None);

    let mut leaf2 = create_empty_leaf();

    leaf2.add_child(0, b"3\n4\n").unwrap();
    assert_eq!(leaf2.summary.byte_len, 4);
    assert_eq!(leaf2.summary.line_count, 3);
    assert_eq!(leaf2.get_line_length_at(0).unwrap(), 2);
    assert_eq!(leaf2.get_line_length_at(1).unwrap(), 2);
    assert_eq!(leaf2.get_line_length_at(2).unwrap(), 0);
    assert_eq!(leaf2.get_line_length_at(3), None);

    let mut internal = create_empty_internal();

    internal.add_leaf_child_node(leaf1);
    internal.add_leaf_child_node(leaf2);

    assert_eq!(internal.get_line_length_at(0).unwrap(), 2);
    assert_eq!(internal.get_line_length_at(1).unwrap(), 2);
    assert_eq!(internal.get_line_length_at(2).unwrap(), 0);
    assert_eq!(internal.get_line_length_at(3).unwrap(), 2);
    assert_eq!(internal.get_line_length_at(4).unwrap(), 2);
    assert_eq!(internal.get_line_length_at(5).unwrap(), 0);
    assert_eq!(internal.get_line_length_at(6), None);
}

#[test]
fn test_line_idx_to_abs_idx() {
    let mut leaf1 = create_empty_leaf();

    leaf1.add_child(0, b"1\n2\n").unwrap();
    assert_eq!(leaf1.summary.byte_len, 4);
    assert_eq!(leaf1.summary.line_count, 3);
    assert_eq!(leaf1.line_idx_to_abs_idx(0).unwrap(), 0);
    assert_eq!(leaf1.line_idx_to_abs_idx(1).unwrap(), 2);
    assert_eq!(leaf1.line_idx_to_abs_idx(2).unwrap(), 4);
    assert_eq!(leaf1.line_idx_to_abs_idx(3), None);

    let mut leaf2 = create_empty_leaf();

    leaf2.add_child(0, b"3\n4\n").unwrap();
    assert_eq!(leaf2.summary.byte_len, 4);
    assert_eq!(leaf2.summary.line_count, 3);
    assert_eq!(leaf2.line_idx_to_abs_idx(0).unwrap(), 0);
    assert_eq!(leaf2.line_idx_to_abs_idx(1).unwrap(), 2);
    assert_eq!(leaf2.line_idx_to_abs_idx(2).unwrap(), 4);
    assert_eq!(leaf2.line_idx_to_abs_idx(3), None);

    let mut internal = create_empty_internal();

    internal.add_leaf_child_node(leaf1);
    internal.add_leaf_child_node(leaf2);

    assert_eq!(internal.line_idx_to_abs_idx(0).unwrap(), 0);
    assert_eq!(internal.line_idx_to_abs_idx(1).unwrap(), 2);
    assert_eq!(internal.line_idx_to_abs_idx(2).unwrap(), 4);
    assert_eq!(internal.line_idx_to_abs_idx(3).unwrap(), 4);
    assert_eq!(internal.line_idx_to_abs_idx(4).unwrap(), 6);
    assert_eq!(internal.line_idx_to_abs_idx(5).unwrap(), 8);
    assert_eq!(internal.line_idx_to_abs_idx(6), None);
}

#[test]
fn test_abs_idx_to_line_idx() {
    let mut leaf1 = create_empty_leaf();

    leaf1.add_child(0, b"1\n2\n").unwrap();
    assert_eq!(leaf1.summary.byte_len, 4);
    assert_eq!(leaf1.summary.line_count, 3);
    assert_eq!(leaf1.abs_idx_to_line_idx(0).unwrap(), 0);
    assert_eq!(leaf1.abs_idx_to_line_idx(1).unwrap(), 0);
    assert_eq!(leaf1.abs_idx_to_line_idx(2).unwrap(), 1);
    assert_eq!(leaf1.abs_idx_to_line_idx(3).unwrap(), 1);
    assert_eq!(leaf1.abs_idx_to_line_idx(4), None);

    let mut leaf2 = create_empty_leaf();

    leaf2.add_child(0, b"3\n4\n").unwrap();
    assert_eq!(leaf2.summary.byte_len, 4);
    assert_eq!(leaf2.summary.line_count, 3);
    assert_eq!(leaf2.abs_idx_to_line_idx(0).unwrap(), 0);
    assert_eq!(leaf2.abs_idx_to_line_idx(1).unwrap(), 0);
    assert_eq!(leaf2.abs_idx_to_line_idx(2).unwrap(), 1);
    assert_eq!(leaf2.abs_idx_to_line_idx(3).unwrap(), 1);
    assert_eq!(leaf2.abs_idx_to_line_idx(4), None);

    let mut internal = create_empty_internal();

    internal.add_leaf_child_node(leaf1);
    internal.add_leaf_child_node(leaf2);

    assert_eq!(internal.abs_idx_to_line_idx(0).unwrap(), 0);
    assert_eq!(internal.abs_idx_to_line_idx(1).unwrap(), 0);
    assert_eq!(internal.abs_idx_to_line_idx(2).unwrap(), 1);
    assert_eq!(internal.abs_idx_to_line_idx(3).unwrap(), 1);
    assert_eq!(internal.abs_idx_to_line_idx(4).unwrap(), 3);
    assert_eq!(internal.abs_idx_to_line_idx(5).unwrap(), 3);
    assert_eq!(internal.abs_idx_to_line_idx(6).unwrap(), 4);
    assert_eq!(internal.abs_idx_to_line_idx(7).unwrap(), 4);
    assert_eq!(internal.abs_idx_to_line_idx(8), None);
}

#[test]
fn internal_insert_crosses_children() {
    let mut internal = two_leaves();
    let sibling = internal.add_child(4, b"x\ny").unwrap();
    assert!(sibling.is_none());
    assert_eq!(internal.summary.line_count, 7);
    assert_eq!(internal.summary.byte_len, 11);
    assert_eq!(internal.get_line_length_at(2), Some(0));
    assert_eq!(internal.get_line_length_at(3), Some(2));
    assert_eq!(internal.get_line_length_at(4), Some(3));
    assert_eq!(internal.add_child(12, b"z").unwrap_err(), MathError::OutOfBounds(11));
}

#[test]
fn node_summary_and_set_through_enum() {
    let mut node = Node::Internal(two_leaves());
    assert_eq!(node.summary().line_count, 6);
    assert_eq!(node.set_line_length(6, 1), Err(MathError::OutOfBounds(6)));
    assert_eq!(node.set_line_length(0, 3), Ok(1));
    assert_eq!(node.get_line_length_at(0), Some(3));
    assert_eq!(node.remove_line_range(0, 0), Ok(3));
    assert_eq!(node.line_idx_to_abs_idx(0), Some(0));
    assert_eq!(node.abs_idx_to_line_idx(0), Some(0));
    let index = BTreeLineIndex::new_empty();
    assert_eq!(index.line_count(), 1);
}

#[test]
fn node_lines_walk_lists_the_range() {
    let node = Node::Internal(two_leaves());
    let mut out = Vec::new();
    node.lines(2, 4, 0, 0, &mut out);
    assert_eq!(out, vec![(2, 4, 4), (3, 4, 6)]);
    let mut shifted = Vec::new();
    node.lines(10, 12, 9, 100, &mut shifted);
    assert_eq!(shifted, vec![(10, 102, 104), (11, 104, 104)]);
}

use nary_tree_codec::{Solution, TreeNode};
use std::collections::VecDeque;

fn leaf(val: usize) -> Option<Box<TreeNode>> {
    TreeNode::tree_node_wrap(TreeNode::new(val))
}

fn contents(queue: &VecDeque<usize>) -> Vec<usize> {
    queue.iter().copied().collect()
}

#[test]
fn sample_1() {
    let mut output_array = Solution::serialize(&Solution::test_fixture_1());
    let result = Solution::deserialize(&mut output_array);
    assert_eq!(result, Solution::test_fixture_1());
}

#[test]
fn empty_input_gives_empty_tree() {
    let mut input: VecDeque<usize> = VecDeque::new();
    let result = Solution::deserialize(&mut input);
    assert_eq!(result, None);
    assert!(input.is_empty());
}

#[test]
fn empty_tree_gives_empty_sequence() {
    let output = Solution::serialize(&None);
    assert!(output.is_empty());
}

#[test]
fn leaf_serializes_to_label_and_zero() {
    let output = Solution::serialize(&leaf(7));
    assert_eq!(contents(&output), vec![7, 0]);
}

#[test]
fn label_and_zero_deserialize_to_leaf() {
    let mut input = VecDeque::from(vec![7, 0]);
    let result = Solution::deserialize(&mut input);
    assert_eq!(result, leaf(7));
    assert!(input.is_empty());
    let node = result.unwrap();
    assert_eq!(node.val, 7);
    assert!(node.children.is_empty());
}

#[test]
fn fixture_has_the_documented_shape() {
    let root = Solution::test_fixture_1().unwrap();
    assert_eq!(root.val, 1);
    assert_eq!(root.children.len(), 3);
    let first = root.children[0].as_ref().unwrap();
    assert_eq!(first.val, 3);
    assert_eq!(first.children.len(), 2);
    assert_eq!(first.children[0], leaf(5));
    assert_eq!(first.children[1], leaf(6));
    assert_eq!(root.children[1], leaf(2));
    assert_eq!(root.children[2], leaf(4));
}

#[test]
fn fixture_serializes_to_the_documented_sequence() {
    let output = Solution::serialize(&Solution::test_fixture_1());
    assert_eq!(contents(&output), vec![1, 3, 3, 2, 5, 0, 6, 0, 2, 0, 4, 0]);
}

#[test]
fn documented_sequence_deserializes_to_fixture() {
    let mut input = VecDeque::from(vec![1, 3, 3, 2, 5, 0, 6, 0, 2, 0, 4, 0]);
    let result = Solution::deserialize(&mut input);
    assert_eq!(result, Solution::test_fixture_1());
    assert!(input.is_empty());
}

#[test]
fn round_trip_of_a_deep_and_wide_tree() {
    let mut chain = TreeNode::new(40);
    chain.add_child_value(41);
    for label in (30..40).rev() {
        let mut parent = TreeNode::new(label);
        parent.add_child_node(TreeNode::tree_node_wrap(chain));
        parent.add_child_value(label + 100);
        chain = parent;
    }
    let mut root = TreeNode::new(0);
    for label in 1..20 {
        root.add_child_value(label);
    }
    root.add_child_node(TreeNode::tree_node_wrap(chain));
    let root = TreeNode::tree_node_wrap(root);

    let mut output = Solution::serialize(&root);
    assert_eq!(output.len(), 2 * (1 + 19 + 10 + 10 + 2));
    let result = Solution::deserialize(&mut output);
    assert_eq!(result, root);
    assert!(output.is_empty());
}

#[test]
fn round_trip_keeps_the_largest_label() {
    let mut root = TreeNode::new(usize::MAX);
    root.add_child_value(0);
    let root = TreeNode::tree_node_wrap(root);
    let mut output = Solution::serialize(&root);
    assert_eq!(contents(&output), vec![usize::MAX, 1, 0, 0]);
    assert_eq!(Solution::deserialize(&mut output), root);
}

#[test]
fn reserialization_gives_the_same_sequence() {
    let first = Solution::serialize(&Solution::test_fixture_1());
    let mut input = first.clone();
    let rebuilt = Solution::deserialize(&mut input);
    let second = Solution::serialize(&rebuilt);
    assert_eq!(first, second);
}

#[test]
fn reserialization_with_empty_slots_gives_the_same_sequence() {
    let mut inner = TreeNode::new(2);
    inner.add_child_node(None);
    let mut root = TreeNode::new(1);
    root.add_child_node(None);
    root.add_child_node(TreeNode::tree_node_wrap(inner));
    root.add_child_value(3);
    let root = TreeNode::tree_node_wrap(root);

    let first = Solution::serialize(&root);
    assert_eq!(contents(&first), vec![1, 3, 2, 1, 3, 0]);
    let mut input = first.clone();
    let rebuilt = Solution::deserialize(&mut input);
    assert!(input.is_empty());
    let second = Solution::serialize(&rebuilt);
    assert_eq!(first, second);
}

#[test]
fn empty_slots_do_not_survive_in_place() {
    let mut root = TreeNode::new(1);
    root.add_child_node(None);
    root.add_child_value(2);
    let root = TreeNode::tree_node_wrap(root);

    let mut output = Solution::serialize(&root);
    assert_eq!(contents(&output), vec![1, 2, 2, 0]);
    let rebuilt = Solution::deserialize(&mut output);
    assert_ne!(rebuilt, root);

    let mut expected = TreeNode::new(1);
    expected.add_child_value(2);
    expected.add_child_node(None);
    assert_eq!(rebuilt, TreeNode::tree_node_wrap(expected));
}

#[test]
fn empty_slot_is_counted_and_not_written() {
    let mut root = TreeNode::new(9);
    root.add_child_node(None);
    let output = Solution::serialize(&TreeNode::tree_node_wrap(root));
    assert_eq!(contents(&output), vec![9, 1]);
}

#[test]
fn slots_owed_by_an_exhausted_sequence_stay_empty() {
    let mut input = VecDeque::from(vec![1, 2]);
    let result = Solution::deserialize(&mut input);
    let mut expected = TreeNode::new(1);
    expected.add_child_node(None);
    expected.add_child_node(None);
    assert_eq!(result, TreeNode::tree_node_wrap(expected));
    assert!(input.is_empty());
}

#[test]
fn deserialize_leaves_what_follows_the_tree() {
    let mut input = VecDeque::from(vec![1, 1, 2, 0, 8, 0, 9]);
    let result = Solution::deserialize(&mut input);
    let mut expected = TreeNode::new(1);
    expected.add_child_value(2);
    assert_eq!(result, TreeNode::tree_node_wrap(expected));
    assert_eq!(contents(&input), vec![8, 0, 9]);
}

#[test]
fn serialize_leaves_the_tree_unchanged() {
    let root = Solution::test_fixture_1();
    let _ = Solution::serialize(&root);
    assert_eq!(root, Solution::test_fixture_1());
}

#[test]
fn new_node_has_its_label_and_no_slots() {
    let node = TreeNode::new(12);
    assert_eq!(node.val, 12);
    assert!(node.children.is_empty());
}

#[test]
fn add_child_value_appends_a_leaf() {
    let mut node = TreeNode::new(1);
    node.add_child_value(2);
    node.add_child_value(3);
    assert_eq!(node.val, 1);
    assert_eq!(node.children.len(), 2);
    assert_eq!(node.children[0], leaf(2));
    assert_eq!(node.children[1], leaf(3));
}

#[test]
fn add_child_node_appends_the_slot_as_given() {
    let mut sub = TreeNode::new(5);
    sub.add_child_value(6);
    let mut node = TreeNode::new(1);
    node.add_child_node(None);
    node.add_child_node(TreeNode::tree_node_wrap(sub));
    assert_eq!(node.val, 1);
    assert_eq!(node.children.len(), 2);
    assert_eq!(node.children[0], None);
    let child = node.children[1].as_ref().unwrap();
    assert_eq!(child.val, 5);
    assert_eq!(child.children.len(), 1);
    assert_eq!(child.children[0], leaf(6));
}

#[test]
fn tree_node_wrap_holds_the_node() {
    let mut node = TreeNode::new(4);
    node.add_child_value(5);
    let handle = TreeNode::tree_node_wrap(node);
    let held = handle.unwrap();
    assert_eq!(held.val, 4);
    assert_eq!(held.children.len(), 1);
    assert_eq!(held.children[0], leaf(5));
}

#[test]
fn nodes_with_different_arity_differ() {
    let mut with_slot = TreeNode::new(1);
    with_slot.add_child_node(None);
    assert_ne!(with_slot, TreeNode::new(1));
    assert_ne!(TreeNode::new(1), TreeNode::new(2));
}

#[test]
fn serialized_trees_are_decodable() {
    assert!(Solution::is_decodable(&Solution::serialize(&None)));
    assert!(Solution::is_decodable(&Solution::serialize(&leaf(3))));
    assert!(Solution::is_decodable(&Solution::serialize(&Solution::test_fixture_1())));
    let mut root = TreeNode::new(1);
    root.add_child_node(None);
    root.add_child_value(2);
    root.add_child_node(None);
    assert!(Solution::is_decodable(&Solution::serialize(&TreeNode::tree_node_wrap(root))));
}

#[test]
fn label_without_slot_count_is_not_decodable() {
    assert!(!Solution::is_decodable(&VecDeque::from(vec![1])));
    assert!(!Solution::is_decodable(&VecDeque::from(vec![1, 1, 7])));
    assert!(!Solution::is_decodable(&VecDeque::from(vec![1, 2, 3, 0, 4])));
    assert!(!Solution::is_decodable(&VecDeque::from(vec![1, 1, 2, 1, 3, 1, 4])));
}

#[test]
fn sequences_that_end_between_slots_are_decodable() {
    assert!(Solution::is_decodable(&VecDeque::from(vec![1, 2])));
    assert!(Solution::is_decodable(&VecDeque::from(vec![1, usize::MAX])));
    assert!(Solution::is_decodable(&VecDeque::from(vec![1, 2, 3, 0])));
    assert!(Solution::is_decodable(&VecDeque::from(vec![1, 0, 9])));
    assert!(Solution::is_decodable(&VecDeque::from(vec![1, 1, 2, 0, 8, 0, 9])));
}

#[test]
fn is_decodable_leaves_the_sequence_as_it_was() {
    let input = VecDeque::from(vec![1, 3, 3, 2, 5, 0, 6, 0, 2, 0, 4, 0]);
    assert!(Solution::is_decodable(&input));
    assert_eq!(contents(&input), vec![1, 3, 3, 2, 5, 0, 6, 0, 2, 0, 4, 0]);
}

#[test]
fn equality_follows_labels_arity_and_order() {
    let mut left = TreeNode::new(1);
    left.add_child_value(2);
    left.add_child_value(3);
    let mut same = TreeNode::new(1);
    same.add_child_value(2);
    same.add_child_value(3);
    let mut swapped = TreeNode::new(1);
    swapped.add_child_value(3);
    swapped.add_child_value(2);
    let mut deeper = TreeNode::new(1);
    deeper.add_child_value(2);
    let mut last = TreeNode::new(3);
    last.add_child_node(None);
    deeper.add_child_node(TreeNode::tree_node_wrap(last));
    assert_eq!(left, same);
    assert_ne!(left, swapped);
    assert_ne!(left, deeper);
    assert!(left == same);
    assert!(!(left != same));
}

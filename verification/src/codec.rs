//! Flattening a tree into a sequence and rebuilding a tree from one.

use crate::round_trip::lemma_reencode;
use crate::tree::{Tree, TreeNode};
use crate::wire::{
    decodable, decode, decode_children, encode, encode_children, lemma_decode_children_exhausted,
    lemma_decode_consumes, lemma_encode_children_take,
};
use std::collections::VecDeque;
use vstd::prelude::*;

verus! {

/// The two directions of the codec.
pub struct Solution {}

impl Solution {
    /// Flattens the tree under `root` into a new sequence: the pre-order
    /// encoding of the tree, which is empty for the empty tree.
    pub fn serialize(root: &Option<Box<TreeNode>>) -> (output: VecDeque<usize>)
        ensures
            output@ == encode(root.deep_view()),
            root is None <==> output@.len() == 0,
            decodable(output@),
    {
        let mut output: VecDeque<usize> = VecDeque::new();
        Self::dfs(root, &mut output);
        proof {
            lemma_reencode(*root);
        }
        output
    }

    /// Appends the encoding of the slot `node` to `output`.
    fn dfs(node: &Option<Box<TreeNode>>, output: &mut VecDeque<usize>)
        ensures
            final(output)@ == old(output)@ + encode(node.deep_view()),
        decreases node,
    {
        if let Some(node_box) = node {
            let count = node_box.children.len();
            output.push_back(node_box.val);
            output.push_back(count);
            let ghost slots = node_box@.children;
            proof {
                node_box.lemma_model_children();
            }
            // the encodings of the slots follow, in order
            for i in 0..count
                invariant
                    count == node_box.children.len(),
                    slots == node_box@.children,
                    slots == node_box.children.deep_view(),
                    node == Some(*node_box),
                    output@ == old(output)@ + seq![node_box.val, count] + encode_children(
                        slots.take(i as int),
                    ),
            {
                proof {
                    assert(decreases_to!(node => node->0));
                    lemma_encode_children_take(slots, i as int);
                }
                Self::dfs(&node_box.children[i], output);
            }
            assert(slots.take(count as int) =~= slots);
        }
    }

    /// Rebuilds a tree from the front of `input` and leaves in `input` what
    /// the tree did not use. An empty `input` gives the empty tree.
    ///
    /// Where the sequence runs out while child slots are still owed, those
    /// slots are left empty. A sequence that breaks off between a label and
    /// its slot count cannot be decoded and is excluded: what
    /// [`Solution::serialize`] returns never does, and
    /// [`Solution::is_decodable`] tells of any other sequence.
    pub fn deserialize(input: &mut VecDeque<usize>) -> (root: Option<Box<TreeNode>>)
        requires
            decodable(old(input)@),
        ensures
            root.deep_view() == decode(old(input)@)->value,
            final(input)@ == decode(old(input)@)->rest,
            root is None <==> old(input)@.len() == 0,
            encode(root.deep_view()) + final(input)@ == old(input)@,
    {
        proof {
            lemma_decode_consumes(input@);
        }
        if input.len() == 0 {
            return None;
        }
        Self::build_tree(input)
    }

    /// Tells whether `input` can be decoded, without changing it: whether
    /// [`Solution::deserialize`] may be called on it.
    pub fn is_decodable(input: &VecDeque<usize>) -> (ok: bool)
        ensures
            ok == decodable(input@),
    {
        assert(input@.skip(0) =~= input@);
        Self::scan(input, 0).is_some()
    }

    /// Reads over the slot that starts at position `start` of `input` and
    /// returns the position behind it, or `None` where the slot breaks off
    /// between a label and its slot count.
    fn scan(input: &VecDeque<usize>, start: usize) -> (end: Option<usize>)
        requires
            start <= input@.len(),
        ensures
            match end {
                Some(end) => {
                    &&& start <= end <= input@.len()
                    &&& start < input@.len() ==> start + 2 <= end
                    &&& decode(input@.skip(start as int)) is Done
                    &&& decode(input@.skip(start as int))->rest == input@.skip(end as int)
                },
                None => decode(input@.skip(start as int)) is Truncated,
            },
        decreases input@.len() - start,
    {
        let len = input.len();
        if start == len {
            return Some(start);
        }
        if len - start == 1 {
            return None;
        }
        let count = input[start + 1];
        let ghost body = input@.skip(start as int).skip(2);
        let mut pos = start + 2;
        let mut i: usize = 0;
        assert(input@.skip(pos as int) =~= body);
        // slots that are owed once the sequence is exhausted are empty
        while i < count && pos < len
            invariant
                len == input@.len(),
                start + 2 <= pos <= len,
                i <= count,
                count == input@[start + 1],
                body == input@.skip(start as int).skip(2),
                decode_children(body, count as nat) is Done <==> decode_children(
                    input@.skip(pos as int),
                    (count - i) as nat,
                ) is Done,
                decode_children(body, count as nat)->rest == decode_children(
                    input@.skip(pos as int),
                    (count - i) as nat,
                )->rest,
            decreases len - pos,
        {
            match Self::scan(input, pos) {
                Some(end) => {
                    pos = end;
                },
                None => {
                    return None;
                },
            }
            i += 1;
        }
        proof {
            if i < count {
                assert(input@.skip(pos as int) =~= Seq::empty());
                lemma_decode_children_exhausted((count - i) as nat);
            }
        }
        Some(pos)
    }

    /// Reads one slot from the front of `input`.
    fn build_tree(input: &mut VecDeque<usize>) -> (slot: Option<Box<TreeNode>>)
        requires
            decodable(old(input)@),
        ensures
            slot.deep_view() == decode(old(input)@)->value,
            final(input)@ == decode(old(input)@)->rest,
        decreases old(input)@.len(),
    {
        if input.len() == 0 {
            return None;
        }
        let val = input.pop_front().unwrap();
        let count = input.pop_front().unwrap();
        let ghost body = old(input)@.skip(2);
        assert(input@ =~= body);
        if count == 0 {
            return TreeNode::tree_node_wrap(TreeNode::new(val));
        }
        let mut root = TreeNode::new(val);
        // each of the `count` slots is read from where the one before ended
        for i in 0..count
            invariant
                root@.val == val,
                root@.children.len() == i,
                input@.len() <= body.len(),
                body.len() + 2 == old(input)@.len(),
                decode_children(body, count as nat) is Done,
                decode_children(input@, (count - i) as nat) is Done,
                decode_children(body, count as nat)->value == root@.children + decode_children(
                    input@,
                    (count - i) as nat,
                )->value,
                decode_children(body, count as nat)->rest == decode_children(
                    input@,
                    (count - i) as nat,
                )->rest,
        {
            proof {
                lemma_decode_consumes(input@);
            }
            let child = Self::build_tree(input);
            root.add_child_node(child);
        }
        TreeNode::tree_node_wrap(root)
    }

    /// The sample tree: a root labelled 1 whose three children are a node
    /// labelled 3 with the leaves 5 and 6 below it, the leaf 2 and the leaf 4.
    pub fn test_fixture_1() -> (root: Option<Box<TreeNode>>)
        ensures
            root.deep_view() == Some(
                Tree {
                    val: 1,
                    children: seq![
                        Some(
                            Tree {
                                val: 3,
                                children: seq![Some(Tree::leaf(5)), Some(Tree::leaf(6))],
                            },
                        ),
                        Some(Tree::leaf(2)),
                        Some(Tree::leaf(4)),
                    ],
                },
            ),
            root matches Some(node) && node@.fully_populated(),
    {
        let mut root = TreeNode::new(1);
        let mut c1 = TreeNode::new(3);
        c1.add_child_value(5);
        c1.add_child_value(6);
        assert(c1@.children =~= seq![Some(Tree::leaf(5)), Some(Tree::leaf(6))]);
        root.add_child_node(TreeNode::tree_node_wrap(c1));
        root.add_child_value(2);
        root.add_child_value(4);
        assert(root@.children =~= seq![Some(c1@), Some(Tree::leaf(2)), Some(Tree::leaf(4))]);
        TreeNode::tree_node_wrap(root)
    }
}

} // verus!

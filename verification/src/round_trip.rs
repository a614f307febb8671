//! What holds between the two directions of the codec.
//!
//! The public lemmas speak of trees as the codec sees them, through
//! [`encode`] and [`decode`]. The private ones work on the model and carry
//! the inductions.

use crate::tree::{Tree, TreeNode};
use crate::wire::{
    decode, decode_children, encode, encode_children, lemma_decode_children_exhausted,
    lemma_decode_consumes, Parse,
};
use vstd::prelude::*;

verus! {

/// True when the number of slots of every node of the tree fits a `usize`,
/// so that the encoding records it exactly.
spec fn bounded(node: Tree) -> bool
    decreases node,
{
    &&& node.children.len() <= usize::MAX
    &&& forall|i: int|
        0 <= i < node.children.len() ==> match #[trigger] node.children[i] {
            Some(child) => bounded(child),
            None => true,
        }
}

/// True when every tree in the given slots is bounded.
spec fn bounded_slots(slots: Seq<Option<Tree>>) -> bool {
    forall|i: int|
        0 <= i < slots.len() ==> match #[trigger] slots[i] {
            Some(child) => bounded(child),
            None => true,
        }
}

/// True when every slot is populated, and by a tree without empty slots.
spec fn populated_slots(slots: Seq<Option<Tree>>) -> bool {
    forall|i: int|
        0 <= i < slots.len() ==> match #[trigger] slots[i] {
            Some(child) => child.fully_populated(),
            None => false,
        }
}

/// The number of populated slots among the given ones.
spec fn filled(slots: Seq<Option<Tree>>) -> nat
    decreases slots.len(),
{
    if slots.len() == 0 {
        0
    } else if slots.first() is Some {
        1 + filled(slots.drop_first())
    } else {
        filled(slots.drop_first())
    }
}

/// The model of a node is bounded, because a vector's length fits a `usize`.
proof fn lemma_model_bounded(node: TreeNode)
    ensures
        bounded(node@),
    decreases node,
{
    assert(node@.children.len() == node.children.len());
    assert forall|i: int| 0 <= i < node@.children.len() implies match #[trigger] node@.children[i] {
        Some(child) => bounded(child),
        None => true,
    } by {
        match node.children@[i] {
            Some(child) => {
                lemma_model_bounded(*child);
            },
            None => {},
        }
    }
}

/// Decoding what was encoded from slots without any empty slot gives the
/// same slots back, and leaves what followed the encoding.
proof fn lemma_round_trip_children(slots: Seq<Option<Tree>>, tail: Seq<usize>)
    requires
        bounded_slots(slots),
        populated_slots(slots),
    ensures
        decode_children(encode_children(slots) + tail, slots.len()) == (Parse::Done {
            value: slots,
            rest: tail,
        }),
    decreases slots,
{
    if slots.len() == 0 {
        assert(slots =~= Seq::empty());
    } else {
        let node = slots.first()->0;
        let others = slots.drop_first();
        let after_first = encode_children(others) + tail;
        assert(encode_children(slots) + tail =~= encode(slots.first()) + after_first);
        lemma_round_trip_node(node, after_first);
        lemma_round_trip_children(others, tail);
        assert(seq![slots.first()] + others =~= slots);
    }
}

/// Decoding what was encoded from a node without any empty slot gives the
/// node back, and leaves what followed the encoding.
proof fn lemma_round_trip_node(node: Tree, tail: Seq<usize>)
    requires
        bounded(node),
        node.fully_populated(),
    ensures
        decode(encode(Some(node)) + tail) == (Parse::Done { value: Some(node), rest: tail }),
    decreases node,
{
    let s = encode(Some(node)) + tail;
    assert(s.skip(2) =~= encode_children(node.children) + tail);
    lemma_round_trip_children(node.children, tail);
}

/// The encoding of two runs of slots, one after the other, is the encoding
/// of the first run followed by that of the second.
proof fn lemma_encode_children_concat(a: Seq<Option<Tree>>, b: Seq<Option<Tree>>)
    ensures
        encode_children(a + b) == encode_children(a) + encode_children(b),
    decreases a.len(),
{
    if a.len() > 0 {
        assert((a + b).drop_first() =~= a.drop_first() + b);
        lemma_encode_children_concat(a.drop_first(), b);
    }
}

/// The populated slots of two runs of slots add up.
proof fn lemma_filled_concat(a: Seq<Option<Tree>>, b: Seq<Option<Tree>>)
    ensures
        filled(a + b) == filled(a) + filled(b),
    decreases a.len(),
{
    if a.len() > 0 {
        assert((a + b).drop_first() =~= a.drop_first() + b);
        lemma_filled_concat(a.drop_first(), b);
    }
}

/// There are no more populated slots than slots.
proof fn lemma_filled_at_most_len(slots: Seq<Option<Tree>>)
    ensures
        filled(slots) <= slots.len(),
    decreases slots.len(),
{
    if slots.len() > 0 {
        lemma_filled_at_most_len(slots.drop_first());
    }
}

/// Slots of which none is populated encode to nothing.
proof fn lemma_unfilled_encode_empty(slots: Seq<Option<Tree>>)
    requires
        filled(slots) == 0,
    ensures
        encode_children(slots) == Seq::<usize>::empty(),
    decreases slots.len(),
{
    if slots.len() > 0 {
        lemma_unfilled_encode_empty(slots.drop_first());
        assert(encode(slots.first()) + encode_children(slots.drop_first()) =~= Seq::empty());
    }
}

/// Reading `n` slots from the encoding of any run of slots succeeds. What
/// is left is again the encoding of a run of slots, `left`, and each slot
/// read has taken at least one populated slot out of the run, as long as
/// there was one.
proof fn lemma_decode_encoded_children(slots: Seq<Option<Tree>>, n: nat) -> (left: Seq<
    Option<Tree>,
>)
    requires
        bounded_slots(slots),
    ensures
        decode_children(encode_children(slots), n) is Done,
        decode_children(encode_children(slots), n)->rest == encode_children(left),
        bounded_slots(left),
        filled(left) + n <= filled(slots) || filled(left) == 0,
    decreases encode_children(slots).len(), slots.len(),
{
    let s = encode_children(slots);
    if n == 0 {
        slots
    } else if s.len() == 0 {
        lemma_decode_children_exhausted(n);
        assert(s =~= Seq::empty());
        Seq::empty()
    } else {
        let others = slots.drop_first();
        match slots.first() {
            None => {
                // an empty slot in front writes nothing: the others encode to `s`
                assert(encode(None::<Tree>) =~= Seq::empty());
                lemma_decode_encoded_children(others, n)
            },
            Some(node) => {
                // behind the node's label and count stands the encoding of its
                // slots and of the others, read as one run
                let inner = node.children + others;
                lemma_encode_children_concat(node.children, others);
                let head = seq![node.val, node.children.len() as usize];
                assert(encode(Some(node)) == head + encode_children(node.children));
                assert(s.skip(2) =~= encode_children(inner));
                let after_first = lemma_decode_encoded_children(inner, node.children.len());
                // what the first slot leaves is shorter than `s` by two or more
                lemma_decode_consumes(s);
                let left = lemma_decode_encoded_children(after_first, (n - 1) as nat);
                lemma_filled_concat(node.children, others);
                lemma_filled_at_most_len(node.children);
                left
            },
        }
    }
}

/// Decoding the encoding of any bounded tree succeeds and uses it up.
proof fn lemma_decode_encoded(root: Option<Tree>)
    requires
        root matches Some(node) ==> bounded(node),
    ensures
        decode(encode(root)) is Done,
        decode(encode(root))->rest == Seq::<usize>::empty(),
{
    if let Some(node) = root {
        let s = encode(root);
        assert(s.skip(2) =~= encode_children(node.children));
        let left = lemma_decode_encoded_children(node.children, node.children.len());
        lemma_filled_at_most_len(node.children);
        lemma_unfilled_encode_empty(left);
    }
}

/// A tree without empty slots survives the round trip: decoding its
/// encoding gives the same tree, with the same labels, the same arities and
/// the same order of children, and uses the encoding up.
pub proof fn lemma_round_trip(root: Option<Box<TreeNode>>)
    requires
        root matches Some(node) ==> node@.fully_populated(),
    ensures
        decode(encode(root.deep_view())) == (Parse::Done {
            value: root.deep_view(),
            rest: Seq::<usize>::empty(),
        }),
{
    if let Some(node) = root {
        lemma_model_bounded(*node);
        lemma_round_trip_node(node@, Seq::empty());
    }
}

/// The encoding of any tree, with or without empty slots, can be decoded,
/// and decoding uses it up. The tree that comes out may differ from the one
/// that went in where that one had empty slots, yet it encodes to the same
/// sequence.
pub proof fn lemma_reencode(root: Option<Box<TreeNode>>)
    ensures
        decode(encode(root.deep_view())) is Done,
        decode(encode(root.deep_view()))->rest == Seq::<usize>::empty(),
        encode(decode(encode(root.deep_view()))->value) == encode(root.deep_view()),
{
    let s = encode(root.deep_view());
    if let Some(node) = root {
        lemma_model_bounded(*node);
    }
    lemma_decode_encoded(root.deep_view());
    lemma_decode_consumes(s);
}

/// A node without child slots encodes to its label followed by zero, and
/// that sequence decodes to the same node.
pub proof fn lemma_leaf(val: usize)
    ensures
        encode(Some(Tree::leaf(val))) == seq![val, 0usize],
        decode(seq![val, 0usize]) == (Parse::Done {
            value: Some(Tree::leaf(val)),
            rest: Seq::<usize>::empty(),
        }),
{
    let s = seq![val, 0usize];
    assert(s.skip(2) =~= Seq::empty());
}

} // verus!

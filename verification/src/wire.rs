//! The flat encoding, stated over the mathematical model.
//!
//! A tree is written in pre-order. Every populated node contributes its
//! label, then the number of its child slots, then the encodings of its
//! slots in order. An empty slot contributes nothing, although it is counted
//! by its parent. The sequence carries no length prefix and no terminator.

use crate::tree::Tree;
use vstd::prelude::*;

verus! {

/// The outcome of reading from the front of a sequence.
pub enum Parse<T> {
    /// `value` was read and `rest` is what remains of the sequence.
    Done { value: T, rest: Seq<usize> },
    /// The sequence broke off between a label and its slot count.
    Truncated,
}

/// The encoding of one slot: nothing for an empty slot, and for a populated
/// one the label, the slot count and the encodings of the child slots.
///
/// The slot count is written as a `usize`. It always fits for the model of a
/// [`crate::tree::TreeNode`], whose slots are held in a vector.
pub open spec fn encode(slot: Option<Tree>) -> Seq<usize>
    decreases slot,
{
    match slot {
        None => Seq::empty(),
        Some(node) => seq![node.val, node.children.len() as usize] + encode_children(
            node.children,
        ),
    }
}

/// The encodings of the given slots, one after the other.
pub open spec fn encode_children(slots: Seq<Option<Tree>>) -> Seq<usize>
    decreases slots,
{
    if slots.len() == 0 {
        Seq::empty()
    } else {
        encode(slots.first()) + encode_children(slots.drop_first())
    }
}

/// Reads one slot from the front of `s`.
///
/// An exhausted sequence reads as an empty slot. A sequence of one element
/// is a label without its slot count and cannot be read. Otherwise the first
/// two elements are a label and a slot count, and that many slots are read
/// from what follows.
pub open spec fn decode(s: Seq<usize>) -> Parse<Option<Tree>>
    decreases s.len(), 0nat,
{
    if s.len() == 0 {
        Parse::Done { value: None, rest: s }
    } else if s.len() == 1 {
        Parse::Truncated
    } else {
        match decode_children(s.skip(2), s[1] as nat) {
            Parse::Done { value: children, rest } => Parse::Done {
                value: Some(Tree { val: s[0], children }),
                rest,
            },
            Parse::Truncated => Parse::Truncated,
        }
    }
}

/// Reads `n` slots in a row from the front of `s`.
///
/// The test that reading a slot did not lengthen the sequence never fails
/// (see [`lemma_decode_consumes`]); it is there to make the recursion well
/// founded.
pub open spec fn decode_children(s: Seq<usize>, n: nat) -> Parse<Seq<Option<Tree>>>
    decreases s.len(), n + 1,
{
    if n == 0 {
        Parse::Done { value: Seq::empty(), rest: s }
    } else {
        match decode(s) {
            Parse::Done { value: first, rest: after_first } => {
                if after_first.len() <= s.len() {
                    match decode_children(after_first, (n - 1) as nat) {
                        Parse::Done { value: others, rest } => Parse::Done {
                            value: seq![first] + others,
                            rest,
                        },
                        Parse::Truncated => Parse::Truncated,
                    }
                } else {
                    Parse::Truncated
                }
            },
            Parse::Truncated => Parse::Truncated,
        }
    }
}

/// True when `s` can be decoded: reading it never meets a label that its
/// slot count does not follow.
pub open spec fn decodable(s: Seq<usize>) -> bool {
    decode(s) is Done
}

/// The encoding of a sequence of slots with one more slot in front is the
/// encoding of that slot followed by the encoding of the others.
pub proof fn lemma_encode_children_prepend(first: Option<Tree>, others: Seq<Option<Tree>>)
    ensures
        encode_children(seq![first] + others) == encode(first) + encode_children(others),
{
    let slots = seq![first] + others;
    assert(slots.drop_first() =~= others);
}

/// The encoding of the first `n + 1` slots is the encoding of the first `n`
/// followed by the encoding of slot `n`.
pub proof fn lemma_encode_children_take(slots: Seq<Option<Tree>>, n: int)
    requires
        0 <= n < slots.len(),
    ensures
        encode_children(slots.take(n + 1)) == encode_children(slots.take(n)) + encode(slots[n]),
    decreases n,
{
    let head = slots.take(n + 1);
    if n == 0 {
        assert(head.drop_first() =~= Seq::<Option<Tree>>::empty());
        assert(slots.take(0) =~= Seq::<Option<Tree>>::empty());
    } else {
        let tail = slots.drop_first();
        lemma_encode_children_take(tail, n - 1);
        assert(head.drop_first() =~= tail.take(n));
        assert(slots.take(n).drop_first() =~= tail.take(n - 1));
    }
}

/// Any number of slots can be read from an exhausted sequence; nothing is
/// left behind.
pub proof fn lemma_decode_children_exhausted(n: nat)
    ensures
        decode_children(Seq::empty(), n) is Done,
        decode_children(Seq::empty(), n)->rest == Seq::<usize>::empty(),
    decreases n,
{
    if n > 0 {
        assert(decode(Seq::empty()) is Done);
        lemma_decode_children_exhausted((n - 1) as nat);
    }
}

/// What decoding takes from the front of a sequence is the encoding of the
/// slot it returns: that encoding followed by the rest is the input.
pub proof fn lemma_decode_consumes(s: Seq<usize>)
    requires
        decodable(s),
    ensures
        encode(decode(s)->value) + decode(s)->rest == s,
        decode(s)->rest.len() <= s.len(),
    decreases s.len(), 0nat,
{
    if s.len() >= 2 {
        let n = s[1] as nat;
        lemma_decode_children_consumes(s.skip(2), n);
        let children = decode_children(s.skip(2), n)->value;
        let rest = decode_children(s.skip(2), n)->rest;
        assert(seq![s[0], s[1]] + encode_children(children) + rest =~= seq![s[0], s[1]] + (
        encode_children(children) + rest));
    }
}

/// What decoding `n` slots takes from the front of a sequence is the
/// encoding of the `n` slots it returns.
pub proof fn lemma_decode_children_consumes(s: Seq<usize>, n: nat)
    requires
        decode_children(s, n) is Done,
    ensures
        decode_children(s, n)->value.len() == n,
        encode_children(decode_children(s, n)->value) + decode_children(s, n)->rest == s,
        decode_children(s, n)->rest.len() <= s.len(),
    decreases s.len(), n + 1,
{
    if n > 0 {
        lemma_decode_consumes(s);
        let first = decode(s)->value;
        let after_first = decode(s)->rest;
        lemma_decode_children_consumes(after_first, (n - 1) as nat);
        let others = decode_children(after_first, (n - 1) as nat)->value;
        lemma_encode_children_prepend(first, others);
    }
}

} // verus!

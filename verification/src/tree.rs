//! The tree node, its mathematical model and its attachment operations.
//!
//! A node owns its children directly: a child slot is either empty or holds
//! the boxed root of a subtree. No node is ever shared between two parents.

use vstd::prelude::*;

verus! {

/// Mathematical model of a tree node: a label and an ordered sequence of
/// child slots, each either populated (`Some`) or empty (`None`).
///
/// A whole tree, which may have no root at all, is an `Option<Tree>`.
#[verifier::ext_equal]
pub struct Tree {
    pub val: usize,
    pub children: Seq<Option<Tree>>,
}

impl Tree {
    /// The node labelled `val` that has no child slots.
    pub open spec fn leaf(val: usize) -> Tree {
        Tree { val, children: Seq::empty() }
    }

    /// True when no slot anywhere in the tree is empty.
    pub open spec fn fully_populated(self) -> bool
        decreases self,
    {
        forall|i: int|
            0 <= i < self.children.len() ==> match #[trigger] self.children[i] {
                Some(child) => child.fully_populated(),
                None => false,
            }
    }
}

/// A node of an arbitrary-arity tree.
///
/// `children` lists the child slots in order. A populated slot owns the
/// subtree below it; an empty slot still counts towards the node's arity.
#[derive(Debug)]
pub struct TreeNode {
    pub val: usize,
    pub children: Vec<Option<Box<TreeNode>>>,
}

impl TreeNode {
    /// The model of this node: its label, and slot by slot the model of what
    /// the slot holds.
    pub open spec fn model(self) -> Tree
        decreases self,
    {
        Tree {
            val: self.val,
            children: Seq::new(
                self.children@.len(),
                |i: int|
                    if 0 <= i < self.children@.len() {
                        match self.children@[i] {
                            Some(child) => Some(child.model()),
                            None => None,
                        }
                    } else {
                        None
                    },
            ),
        }
    }

    /// The slots of a node's model are the models of the node's slots.
    pub proof fn lemma_model_children(self)
        ensures
            self@.val == self.val,
            self@.children == self.children.deep_view(),
    {
    }
}

impl View for TreeNode {
    type V = Tree;

    open spec fn view(&self) -> Tree {
        self.model()
    }
}

impl DeepView for TreeNode {
    type V = Tree;

    open spec fn deep_view(&self) -> Tree {
        self.model()
    }
}

impl TreeNode {
    /// A node labelled `val` with no child slots.
    pub fn new(val: usize) -> (node: Self)
        ensures
            node.val == val,
            node.children@.len() == 0,
            node@ == Tree::leaf(val),
            node@.fully_populated(),
    {
        let node = TreeNode { val, children: Vec::new() };
        assert(node@.children =~= Seq::empty());
        node
    }

    /// Appends a populated slot that holds a new leaf labelled `val`. A
    /// node without empty slots stays one.
    pub fn add_child_value(&mut self, val: usize)
        ensures
            final(self).val == old(self).val,
            final(self).children@.drop_last() == old(self).children@,
            final(self)@.val == old(self)@.val,
            final(self)@.children == old(self)@.children.push(Some(Tree::leaf(val))),
            old(self)@.fully_populated() ==> final(self)@.fully_populated(),
    {
        let node = TreeNode::new(val);
        self.add_child_node(Self::tree_node_wrap(node));
    }

    /// Appends `node` as the last slot exactly as given: a subtree stays a
    /// populated slot, `None` becomes an empty slot. A node without empty
    /// slots stays one when the subtree has none either.
    pub fn add_child_node(&mut self, node: Option<Box<Self>>)
        ensures
            final(self).val == old(self).val,
            final(self).children@ == old(self).children@.push(node),
            final(self)@.val == old(self)@.val,
            final(self)@.children == old(self)@.children.push(node.deep_view()),
            old(self)@.fully_populated() && (node matches Some(child) && child@.fully_populated())
                ==> final(self)@.fully_populated(),
    {
        self.children.push(node);
    }

    /// Compares two nodes by label, arity and, slot by slot and in order,
    /// by what the slots hold.
    fn same_tree(&self, other: &TreeNode) -> (same: bool)
        ensures
            same == (self@ == other@),
        decreases self,
    {
        if self.val != other.val {
            return false;
        }
        let count = self.children.len();
        if count != other.children.len() {
            assert(self@.children.len() != other@.children.len());
            return false;
        }
        for i in 0..count
            invariant
                self.val == other.val,
                count == self.children.len(),
                count == other.children.len(),
                forall|j: int| 0 <= j < i ==> self@.children[j] == other@.children[j],
        {
            let same_slot = match (&self.children[i], &other.children[i]) {
                (None, None) => true,
                (Some(mine), Some(theirs)) => mine.same_tree(theirs),
                _ => false,
            };
            if !same_slot {
                assert(self@.children[i as int] != other@.children[i as int]);
                return false;
            }
        }
        assert(self@.children =~= other@.children);
        true
    }

    /// Wraps a node into the owning handle that fills a child slot or stands
    /// for a whole tree.
    pub fn tree_node_wrap(node: TreeNode) -> (handle: Option<Box<Self>>)
        ensures
            handle == Some(Box::new(node)),
    {
        Some(Box::new(node))
    }
}

impl PartialEq for TreeNode {
    /// Two nodes are equal when their models are: same labels, same
    /// arities, same order of children.
    fn eq(&self, other: &Self) -> (same: bool) {
        self.same_tree(other)
    }
}

impl vstd::std_specs::cmp::PartialEqSpecImpl for TreeNode {
    open spec fn obeys_eq_spec() -> bool {
        true
    }

    open spec fn eq_spec(&self, other: &Self) -> bool {
        self@ == other@
    }
}

} // verus!

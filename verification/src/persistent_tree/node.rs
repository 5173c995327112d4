//! Nodes that are built but not yet shared.

use super::Tree;
use crate::key_order::key_lt;
use std::rc::Rc;
use vstd::prelude::*;

verus! {

/// The larger of two heights.
pub(super) open spec fn higher(a: nat, b: nat) -> nat {
    if a >= b {
        a
    } else {
        b
    }
}

/// A node that has been built but not yet shared: its key and value are
/// owned, so it can still be taken apart without cloning anything.
pub(super) struct Parts<K, V> {
    pub(super) key: K,
    pub(super) value: V,
    pub(super) left: Rc<Tree<K, V>>,
    pub(super) right: Rc<Tree<K, V>>,
}

impl<K: Ord, V> Parts<K, V> {
    /// The map the node will stand for.
    pub(super) open spec fn contents(&self) -> Map<K, V> {
        self.left.contents().union_prefer_right(self.right.contents()).insert(
            self.key,
            self.value,
        )
    }

    /// The height the node will have.
    pub(super) open spec fn spec_height(&self) -> nat {
        1 + higher(self.left.spec_height(), self.right.spec_height())
    }

    /// Both subtrees are well-formed, and the node over them will be.
    pub(super) open spec fn wf(&self) -> bool {
        &&& self.left.wf()
        &&& self.right.wf()
        &&& forall|k: K| #[trigger] self.left.contents().contains_key(k) ==> key_lt(k, self.key)
        &&& forall|k: K| #[trigger] self.right.contents().contains_key(k) ==> key_lt(self.key, k)
        &&& self.left.spec_height() <= self.right.spec_height() + 1
        &&& self.right.spec_height() <= self.left.spec_height() + 1
    }

    /// Records the height and turns the parts into a node.
    pub(super) fn seal(self) -> (out: Tree<K, V>)
        requires
            self.wf(),
            self.spec_height() <= usize::MAX,
        ensures
            out.wf(),
            out@ == self.contents(),
            out.spec_height() == self.spec_height(),
            out matches Tree::Node { key, value, left, right, .. } && key == self.key && value
                == self.value && left == self.left && right == self.right,
    {
        let height: usize = self.height();
        Tree::Node { key: self.key, value: self.value, left: self.left, right: self.right, height }
    }

    /// The height these parts will record once sealed.
    pub(super) fn height(&self) -> (h: usize)
        requires
            self.left.heights_recorded(),
            self.right.heights_recorded(),
            self.spec_height() <= usize::MAX,
        ensures
            h == self.spec_height(),
    {
        let hl: usize = height_of(&self.left);
        let hr: usize = height_of(&self.right);
        if hl >= hr {
            1 + hl
        } else {
            1 + hr
        }
    }
}

/// The recorded height of a subtree.
pub(super) fn height_of<K, V>(tree: &Tree<K, V>) -> (h: usize)
    requires
        tree.heights_recorded(),
    ensures
        h == tree.spec_height(),
{
    match tree {
        Tree::Empty => 0,
        Tree::Node { height, .. } => *height,
    }
}

} // verus!

//! A persistent AVL tree: every update returns a new version and leaves the
//! version it started from untouched, sharing every subtree it did not have
//! to rebuild.

mod grow;
mod laws;
mod node;
mod shrink;

use self::grow::{join_left, join_right, Rebuilt};
use self::node::{height_of, Parts};
use self::shrink::{mend_left, mend_right};
use crate::key_order::{clone_exact, key_lt, lawful_keys, lemma_compare, lemma_lt_transitive, lemma_trichotomy};
use std::rc::Rc;
use vstd::prelude::*;

verus! {

/// One version of the tree. A version is never changed once built; `Rc`
/// lets any number of versions share a subtree.
pub enum Tree<K, V> {
    Empty,
    Node { key: K, value: V, left: Rc<Tree<K, V>>, right: Rc<Tree<K, V>>, height: usize },
}

impl<K: Clone, V: Clone> Clone for Tree<K, V> {
    /// Copies the root node alone: the copy shares both subtrees with this
    /// version.
    fn clone(&self) -> (out: Self)
        ensures
            match (*self, out) {
                (Tree::Empty, Tree::Empty) => true,
                (
                    Tree::Node { key, value, left, right, height },
                    Tree::Node {
                        key: out_key,
                        value: out_value,
                        left: out_left,
                        right: out_right,
                        height: out_height,
                    },
                ) => {
                    &&& cloned(key, out_key)
                    &&& cloned(value, out_value)
                    &&& left == out_left
                    &&& right == out_right
                    &&& height == out_height
                },
                _ => false,
            },
    {
        match self {
            Tree::Empty => Tree::Empty,
            Tree::Node { key, value, left, right, height } => {
                let out_key = key.clone();
                let out_value = value.clone();
                assert(cloned(*key, out_key));
                assert(cloned(*value, out_value));
                Tree::Node {
                    key: out_key,
                    value: out_value,
                    left: left.clone(),
                    right: right.clone(),
                    height: *height,
                }
            },
        }
    }
}

impl<K, V> View for Tree<K, V> {
    type V = Map<K, V>;

    /// A version is the finite map from its keys to their values.
    open spec fn view(&self) -> Map<K, V> {
        self.contents()
    }
}

impl<K, V> Tree<K, V> {
    /// The map this version stands for.
    pub open spec fn contents(&self) -> Map<K, V>
        decreases self,
    {
        match *self {
            Tree::Empty => Map::empty(),
            Tree::Node { key, value, left, right, .. } => left.contents().union_prefer_right(
                right.contents(),
            ).insert(key, value),
        }
    }

    /// What a lookup of `key` finds in this version. It depends on the
    /// version and the key alone.
    pub open spec fn lookup(&self, key: K) -> Option<V> {
        if self@.contains_key(key) {
            Some(self@[key])
        } else {
            None
        }
    }

    /// The number of nodes on the longest path from the root down.
    pub open spec fn spec_height(&self) -> nat
        decreases self,
    {
        match *self {
            Tree::Empty => 0,
            Tree::Node { left, right, .. } => if left.spec_height() >= right.spec_height() {
                1 + left.spec_height()
            } else {
                1 + right.spec_height()
            },
        }
    }

    /// The entries in the order an in-order walk meets them.
    pub open spec fn entries(&self) -> Seq<(K, V)>
        decreases self,
    {
        match *self {
            Tree::Empty => Seq::empty(),
            Tree::Node { key, value, left, right, .. } => left.entries().push((key, value))
                + right.entries(),
        }
    }

    /// At every node the two subtrees differ in height by at most one.
    pub open spec fn balanced(&self) -> bool
        decreases self,
    {
        match *self {
            Tree::Empty => true,
            Tree::Node { left, right, .. } => {
                &&& left.balanced()
                &&& right.balanced()
                &&& left.spec_height() <= right.spec_height() + 1
                &&& right.spec_height() <= left.spec_height() + 1
            },
        }
    }

    /// `other` has a node wherever this version has one, under the same key
    /// and with the same recorded height; only the values may differ.
    pub open spec fn same_shape<U>(&self, other: &Tree<K, U>) -> bool
        decreases self,
    {
        match (*self, *other) {
            (Tree::Empty, Tree::Empty) => true,
            (
                Tree::Node { key, left, right, height, .. },
                Tree::Node { key: other_key, left: other_left, right: other_right, height: other_height, .. },
            ) => {
                &&& key == other_key
                &&& height == other_height
                &&& left.same_shape(&other_left)
                &&& right.same_shape(&other_right)
            },
            _ => false,
        }
    }

    /// Every node records the height of the subtree below it.
    pub open spec fn heights_recorded(&self) -> bool
        decreases self,
    {
        match *self {
            Tree::Empty => true,
            Tree::Node { left, right, height, .. } => {
                &&& left.heights_recorded()
                &&& right.heights_recorded()
                &&& height == self.spec_height()
            },
        }
    }
}

impl<K: Ord, V> Tree<K, V> {
    /// At every node the keys to the left sort before the node's key and the
    /// keys to the right after it.
    pub open spec fn ordered(&self) -> bool
        decreases self,
    {
        match *self {
            Tree::Empty => true,
            Tree::Node { key, left, right, .. } => {
                &&& left.ordered()
                &&& right.ordered()
                &&& forall|k: K| #[trigger] left.contents().contains_key(k) ==> key_lt(k, key)
                &&& forall|k: K| #[trigger] right.contents().contains_key(k) ==> key_lt(key, k)
            },
        }
    }

    /// A search tree that is AVL-balanced and knows its heights.
    pub open spec fn wf(&self) -> bool {
        &&& self.ordered()
        &&& self.balanced()
        &&& self.heights_recorded()
    }
}

impl<K: Ord + Clone, V: Clone> Tree<K, V> {
    /// The canonical empty version.
    pub fn new() -> (out: Rc<Self>)
        ensures
            *out == Tree::<K, V>::Empty,
            out.wf(),
            out@ == Map::<K, V>::empty(),
    {
        Rc::new(Tree::Empty)
    }

    /// Looks `key` up. Read-only: walks one path from the root and hands out
    /// a reference into the version.
    pub fn get<'a>(tree: &'a Self, key: &K) -> (found: Option<&'a V>)
        requires
            tree.wf(),
            lawful_keys::<K>(),
        ensures
            match found {
                Some(v) => tree.lookup(*key) == Some(*v),
                None => tree.lookup(*key).is_none(),
            },
        decreases tree,
    {
        match tree {
            Tree::Empty => None,
            Tree::Node { key: k, value, left, right, .. } => {
                proof {
                    lemma_compare(*key, *k);
                    lemma_trichotomy(*key, *k);
                }
                if *key < *k {
                    assert(!right.contents().contains_key(*key)) by {
                        if right.contents().contains_key(*key) {
                            lemma_trichotomy(*key, *k);
                        }
                    }
                    Self::get(left, key)
                } else if *key > *k {
                    assert(!left.contents().contains_key(*key)) by {
                        if left.contents().contains_key(*key) {
                            lemma_trichotomy(*key, *k);
                        }
                    }
                    Self::get(right, key)
                } else {
                    Some(value)
                }
            },
        }
    }

    /// Rebuilds the path from the root of `tree` to where `key` belongs.
    fn insert_into(tree: &Self, key: K, value: V) -> (out: Rebuilt<K, V>)
        requires
            tree.wf(),
            lawful_keys::<K>(),
            tree.spec_height() < usize::MAX,
        ensures
            out.wf(),
            out.contents().dom() == tree@.dom().insert(key),
            out.contents()[key] == value,
            forall|k: K| #[trigger]
                tree@.contains_key(k) && k != key ==> cloned(tree@[k], out.contents()[k]),
            out.base_height() == tree.spec_height(),
        decreases tree,
    {
        match tree {
            Tree::Empty => {
                let out = Rebuilt::Leaf(key, value);
                assert(out.contents().dom() =~= tree@.dom().insert(key));
                out
            },
            Tree::Node { key: k, value: v, left, right, .. } => {
                proof {
                    lemma_compare(key, *k);
                    lemma_trichotomy(key, *k);
                }
                if key < *k {
                    let grown = Self::insert_into(left, key, value);
                    let kept_key = k.clone();
                    let kept_value = v.clone();
                    proof {
                        assert(cloned(*k, kept_key));
                        assert(cloned(*v, kept_value));
                        assert forall|j: K| #[trigger] grown.contents().contains_key(j) implies key_lt(
                            j,
                            kept_key,
                        ) by {
                            assert(grown.contents().dom().contains(j));
                            assert(j == key || left.contents().contains_key(j));
                        }
                        assert(!right.contents().contains_key(key)) by {
                            if right.contents().contains_key(key) {
                                lemma_trichotomy(key, *k);
                            }
                        }
                    }
                    let out = join_left(kept_key, kept_value, grown, right.clone());
                    assert(out.contents().dom() =~= tree@.dom().insert(key));
                    out
                } else if key > *k {
                    let grown = Self::insert_into(right, key, value);
                    let kept_key = k.clone();
                    let kept_value = v.clone();
                    proof {
                        assert(cloned(*k, kept_key));
                        assert(cloned(*v, kept_value));
                        assert forall|j: K| #[trigger] grown.contents().contains_key(j) implies key_lt(
                            kept_key,
                            j,
                        ) by {
                            assert(grown.contents().dom().contains(j));
                            assert(j == key || right.contents().contains_key(j));
                        }
                        assert(!left.contents().contains_key(key)) by {
                            if left.contents().contains_key(key) {
                                lemma_trichotomy(key, *k);
                            }
                        }
                    }
                    let out = join_right(kept_key, kept_value, left.clone(), grown);
                    assert(out.contents().dom() =~= tree@.dom().insert(key));
                    out
                } else {
                    let out = Rebuilt::Level(
                        Parts { key, value, left: left.clone(), right: right.clone() },
                    );
                    assert(out.contents().dom() =~= tree@.dom().insert(key));
                    out
                }
            },
        }
    }

    /// Inserts `key` with `value`, or replaces the value `key` already has,
    /// and returns the new version. `tree` itself is not changed: the new
    /// version shares every subtree off the search path with it, and holds a
    /// clone of each entry on the path.
    pub fn insert(tree: Rc<Self>, key: K, value: V) -> (out: Rc<Self>)
        requires
            tree.wf(),
            lawful_keys::<K>(),
            tree.spec_height() < usize::MAX,
        ensures
            out.wf(),
            out@.dom() == tree@.dom().insert(key),
            out@[key] == value,
            forall|k: K| #[trigger] tree@.contains_key(k) && k != key ==> cloned(tree@[k], out@[k]),
            clone_exact::<V>() ==> out@ == tree@.insert(key, value),
            tree.spec_height() <= out.spec_height() <= tree.spec_height() + 1,
    {
        let rebuilt = Self::insert_into(&tree, key, value);
        let out = Rc::new(rebuilt.seal());
        assert(clone_exact::<V>() ==> out@ =~= tree@.insert(key, value));
        out
    }

    /// Takes the smallest entry out of `tree`: a clone of it, and the
    /// version without it. `None` where there is no entry to take.
    fn take_min(tree: &Self) -> (out: Option<(K, V, Rc<Self>)>)
        requires
            tree.wf(),
            lawful_keys::<K>(),
        ensures
            match out {
                None => *tree == Tree::<K, V>::Empty,
                Some((min_key, min_value, rest)) => {
                    &&& tree@.contains_key(min_key)
                    &&& cloned(tree@[min_key], min_value)
                    &&& forall|k: K| #[trigger]
                        tree@.contains_key(k) ==> k == min_key || key_lt(min_key, k)
                    &&& rest.wf()
                    &&& rest@.dom() == tree@.dom().remove(min_key)
                    &&& forall|k: K| #[trigger] rest@.contains_key(k) ==> cloned(tree@[k], rest@[k])
                    &&& rest.spec_height() <= tree.spec_height() <= rest.spec_height() + 1
                },
            },
        decreases tree,
    {
        match tree {
            Tree::Empty => None,
            Tree::Node { key, value, left, right, .. } => {
                let kept_key = key.clone();
                let kept_value = value.clone();
                proof {
                    assert(cloned(*key, kept_key));
                    assert(cloned(*value, kept_value));
                    lemma_trichotomy(*key, *key);
                    assert forall|k: K| left@.contains_key(k) implies !right@.contains_key(k) by {
                        if right@.contains_key(k) {
                            lemma_lt_transitive(k, *key, k);
                            lemma_trichotomy(k, k);
                        }
                    }
                }
                match Self::take_min(left) {
                    None => {
                        let rest = right.clone();
                        assert(left@ =~= Map::<K, V>::empty());
                        assert(rest@.dom() =~= tree@.dom().remove(kept_key));
                        Some((kept_key, kept_value, rest))
                    },
                    Some((min_key, min_value, below)) => {
                        proof {
                            lemma_trichotomy(min_key, *key);
                            assert forall|k: K| #[trigger] tree@.contains_key(k) implies k == min_key
                                || key_lt(min_key, k) by {
                                if right@.contains_key(k) {
                                    lemma_lt_transitive(min_key, *key, k);
                                }
                            }
                            assert forall|k: K| #[trigger] below@.contains_key(k) implies key_lt(
                                k,
                                kept_key,
                            ) by {
                                assert(below@.dom().contains(k));
                                assert(left@.contains_key(k));
                            }
                        }
                        let rest = mend_left(kept_key, kept_value, below, right.clone());
                        assert(rest@.dom() =~= tree@.dom().remove(min_key));
                        Some((min_key, min_value, rest))
                    },
                }
            },
        }
    }

    /// Rebuilds the path from the root of `tree` to `key` without `key`.
    fn remove_from(tree: &Self, key: &K) -> (out: Rc<Self>)
        requires
            tree.wf(),
            lawful_keys::<K>(),
        ensures
            out.wf(),
            out@.dom() == tree@.dom().remove(*key),
            forall|k: K| #[trigger] out@.contains_key(k) ==> cloned(tree@[k], out@[k]),
            out.spec_height() <= tree.spec_height() <= out.spec_height() + 1,
        decreases tree,
    {
        match tree {
            Tree::Empty => {
                let out = Rc::new(Tree::Empty);
                assert(out@.dom() =~= tree@.dom().remove(*key));
                out
            },
            Tree::Node { key: k, value: v, left, right, .. } => {
                proof {
                    lemma_compare(*key, *k);
                    lemma_trichotomy(*key, *k);
                    lemma_trichotomy(*k, *k);
                    assert forall|j: K| left@.contains_key(j) implies !right@.contains_key(j) by {
                        if right@.contains_key(j) {
                            lemma_lt_transitive(j, *k, j);
                            lemma_trichotomy(j, j);
                        }
                    }
                }
                if *key < *k {
                    let below = Self::remove_from(left, key);
                    let kept_key = k.clone();
                    let kept_value = v.clone();
                    proof {
                        assert(cloned(*k, kept_key));
                        assert(cloned(*v, kept_value));
                        assert forall|j: K| #[trigger] below@.contains_key(j) implies key_lt(
                            j,
                            kept_key,
                        ) by {
                            assert(below@.dom().contains(j));
                            assert(left@.contains_key(j));
                        }
                        assert(!right@.contains_key(*key)) by {
                            if right@.contains_key(*key) {
                                lemma_trichotomy(*key, *k);
                            }
                        }
                    }
                    let out = mend_left(kept_key, kept_value, below, right.clone());
                    assert(out@.dom() =~= tree@.dom().remove(*key));
                    out
                } else if *key > *k {
                    let below = Self::remove_from(right, key);
                    let kept_key = k.clone();
                    let kept_value = v.clone();
                    proof {
                        assert(cloned(*k, kept_key));
                        assert(cloned(*v, kept_value));
                        assert forall|j: K| #[trigger] below@.contains_key(j) implies key_lt(
                            kept_key,
                            j,
                        ) by {
                            assert(below@.dom().contains(j));
                            assert(right@.contains_key(j));
                        }
                        assert(!left@.contains_key(*key)) by {
                            if left@.contains_key(*key) {
                                lemma_trichotomy(*key, *k);
                            }
                        }
                    }
                    let out = mend_right(kept_key, kept_value, left.clone(), below);
                    assert(out@.dom() =~= tree@.dom().remove(*key));
                    out
                } else if height_of(left) == 0 {
                    let out = right.clone();
                    assert(left@ =~= Map::<K, V>::empty());
                    assert(!right@.contains_key(*k));
                    assert(out@.dom() =~= tree@.dom().remove(*key));
                    out
                } else {
                    match Self::take_min(right) {
                        None => {
                            let out = left.clone();
                            assert(right@ =~= Map::<K, V>::empty());
                            assert(!left@.contains_key(*k));
                            assert(out@.dom() =~= tree@.dom().remove(*key));
                            out
                        },
                        Some((next_key, next_value, rest)) => {
                            proof {
                                assert forall|j: K| #[trigger] left@.contains_key(j) implies key_lt(
                                    j,
                                    next_key,
                                ) by {
                                    lemma_lt_transitive(j, *k, next_key);
                                }
                                assert forall|j: K| #[trigger] rest@.contains_key(j) implies key_lt(
                                    next_key,
                                    j,
                                ) by {
                                    assert(rest@.dom().contains(j));
                                    assert(right@.contains_key(j));
                                }
                            }
                            let out = mend_right(next_key, next_value, left.clone(), rest);
                            assert(out@.dom() =~= tree@.dom().remove(*key));
                            out
                        },
                    }
                }
            },
        }
    }

    /// Returns the version without `key`. `tree` itself is not changed. Where
    /// `key` is absent the result is `tree` itself; otherwise the entries on
    /// the rebuilt path and in rotated nodes are clones, and every other
    /// subtree is shared.
    pub fn remove(tree: Rc<Self>, key: &K) -> (out: Rc<Self>)
        requires
            tree.wf(),
            lawful_keys::<K>(),
        ensures
            out.wf(),
            out@.dom() == tree@.dom().remove(*key),
            forall|k: K| #[trigger] out@.contains_key(k) ==> cloned(tree@[k], out@[k]),
            !tree@.contains_key(*key) ==> out == tree,
            clone_exact::<V>() ==> out@ == tree@.remove(*key),
            out.spec_height() <= tree.spec_height() <= out.spec_height() + 1,
    {
        if Self::get(&tree, key).is_none() {
            assert(tree@.dom() =~= tree@.dom().remove(*key));
            assert(tree@ =~= tree@.remove(*key));
            tree
        } else {
            let out = Self::remove_from(&tree, key);
            assert(clone_exact::<V>() ==> out@ =~= tree@.remove(*key));
            out
        }
    }

    /// Builds the tree of the same shape whose values are `f` of the values
    /// here.
    fn map_nodes<F, U>(tree: &Self, f: &F) -> (out: Rc<Tree<K, U>>) where F: Fn(&V) -> U
        requires
            tree.wf(),
            lawful_keys::<K>(),
            forall|k: K| #[trigger] tree@.contains_key(k) ==> call_requires(*f, (&tree@[k],)),
        ensures
            out.wf(),
            tree.same_shape(&out),
            out.spec_height() == tree.spec_height(),
            out@.dom() == tree@.dom(),
            forall|k: K| #[trigger] tree@.contains_key(k) ==> call_ensures(*f, (&tree@[k],), out@[k]),
        decreases tree,
    {
        match tree {
            Tree::Empty => {
                let out = Rc::new(Tree::Empty);
                assert(out@.dom() =~= tree@.dom());
                out
            },
            Tree::Node { key, value, left, right, height } => {
                proof {
                    lemma_trichotomy(*key, *key);
                    assert forall|k: K| left@.contains_key(k) implies !right@.contains_key(k) by {
                        if right@.contains_key(k) {
                            lemma_lt_transitive(k, *key, k);
                            lemma_trichotomy(k, k);
                        }
                    }
                    assert(tree@.contains_key(*key));
                    assert forall|k: K| #[trigger] left@.contains_key(k) implies call_requires(
                        *f,
                        (&left@[k],),
                    ) by {
                        assert(tree@.contains_key(k));
                    }
                    assert forall|k: K| #[trigger] right@.contains_key(k) implies call_requires(
                        *f,
                        (&right@[k],),
                    ) by {
                        assert(tree@.contains_key(k));
                    }
                }
                let mapped_key = key.clone();
                assert(cloned(*key, mapped_key));
                let mapped_value = f(value);
                let mapped_left = Self::map_nodes(left, f);
                let mapped_right = Self::map_nodes(right, f);
                let out = Rc::new(
                    Tree::Node {
                        key: mapped_key,
                        value: mapped_value,
                        left: mapped_left,
                        right: mapped_right,
                        height: *height,
                    },
                );
                assert(out@.dom() =~= tree@.dom());
                out
            },
        }
    }

    /// Returns the version that maps every key of `tree` to `f` of its
    /// value. Nothing is shared with `tree`, since the values are of another
    /// type: the whole tree is built anew, node for node in the same shape.
    pub fn map<F, U>(tree: Rc<Self>, f: &F) -> (out: Rc<Tree<K, U>>) where F: Fn(&V) -> U
        requires
            tree.wf(),
            lawful_keys::<K>(),
            forall|k: K| #[trigger] tree@.contains_key(k) ==> call_requires(*f, (&tree@[k],)),
        ensures
            out.wf(),
            tree.same_shape(&out),
            out.spec_height() == tree.spec_height(),
            out@.dom() == tree@.dom(),
            forall|k: K| #[trigger] tree@.contains_key(k) ==> call_ensures(*f, (&tree@[k],), out@[k]),
    {
        Self::map_nodes(&tree, f)
    }

    /// Appends the entries of `tree` to `out` in ascending order of key.
    fn walk<'a>(tree: &'a Self, out: &mut Vec<(&'a K, &'a V)>)
        ensures
            final(out)@.len() == old(out)@.len() + tree.entries().len(),
            forall|i: int| 0 <= i < old(out)@.len() ==> final(out)@[i] == old(out)@[i],
            forall|j: int|
                old(out)@.len() <= j < final(out)@.len() ==> {
                    &&& *(#[trigger] final(out)@[j]).0 == tree.entries()[j - old(out)@.len()].0
                    &&& *final(out)@[j].1 == tree.entries()[j - old(out)@.len()].1
                },
        decreases tree,
    {
        match tree {
            Tree::Empty => {},
            Tree::Node { key, value, left, right, .. } => {
                let ghost before = out@.len() as int;
                Self::walk(left, out);
                out.push((key, value));
                let ghost middle = out@.len() as int;
                Self::walk(right, out);
                proof {
                    let row = tree.entries();
                    let low = left.entries().push((*key, *value));
                    assert(row == low + right.entries());
                    assert(before + low.len() == middle);
                    assert forall|j: int| before <= j < out@.len() implies {
                        &&& *(#[trigger] out@[j]).0 == row[j - before].0
                        &&& *out@[j].1 == row[j - before].1
                    } by {
                        if j < middle {
                            assert(row[j - before] == low[j - before]);
                        } else {
                            assert(row[j - before] == right.entries()[j - middle]);
                        }
                    }
                }
            },
        }
    }

    /// The entries of `tree` in ascending order of key, by reference. The
    /// walk is finite and can be made again at any time: a version never
    /// changes.
    pub fn in_order<'a>(tree: &'a Self) -> (out: Vec<(&'a K, &'a V)>)
        ensures
            out@.len() == tree.entries().len(),
            forall|i: int|
                0 <= i < out@.len() ==> {
                    &&& *(#[trigger] out@[i]).0 == tree.entries()[i].0
                    &&& *out@[i].1 == tree.entries()[i].1
                },
    {
        let mut out: Vec<(&'a K, &'a V)> = Vec::new();
        Self::walk(tree, &mut out);
        out
    }
}

} // verus!

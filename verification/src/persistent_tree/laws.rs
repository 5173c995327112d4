//! What holds of every version: of its in-order walk, of its size and of
//! its height.

use super::Tree;
use crate::key_order::{clone_exact, key_lt, lawful_keys, lemma_lt_transitive, lemma_trichotomy};
use vstd::arithmetic::power2::{lemma2_to64, lemma_pow2_strictly_increases, lemma_pow2_unfold, pow2};
use vstd::prelude::*;
use vstd::set_lib::lemma_set_disjoint_lens;

verus! {

impl<K: Ord + Clone, V> Tree<K, V> {
    /// Versions are independent. A version is a value that nothing changes
    /// once it is built, so `base` answers every lookup after a derivation
    /// as it did before. What the derivation adds is `derived`: let it be
    /// what inserting `key` with `value` into `base` gave. Then `derived`
    /// answers a lookup of `key` with `value`, and on every other key it
    /// agrees with `base`, up to one clone of the value.
    pub proof fn lemma_versions_independent(base: &Self, derived: &Self, key: K, value: V, other: K) where
        V: Clone,

        requires
            derived@.dom() == base@.dom().insert(key),
            derived@[key] == value,
            forall|k: K| #[trigger] base@.contains_key(k) && k != key ==> cloned(base@[k], derived@[k]),
        ensures
            derived.lookup(key) == Some(value),
            other != key ==> (derived.lookup(other).is_some() <==> base.lookup(other).is_some()),
            other != key && base@.contains_key(other) ==> cloned(base@[other], derived@[other]),
            other != key && clone_exact::<V>() ==> derived.lookup(other) == base.lookup(other),
    {
    }

    /// The in-order walk meets exactly the entries of the map: each entry of
    /// the walk is an entry of the map, and each key of the map turns up in
    /// the walk.
    pub proof fn lemma_entries_are_contents(&self)
        requires
            self.ordered(),
            lawful_keys::<K>(),
        ensures
            forall|i: int|
                0 <= i < self.entries().len() ==> self@.contains_key((#[trigger] self.entries()[i]).0)
                    && self@[self.entries()[i].0] == self.entries()[i].1,
            forall|k: K| #[trigger]
                self@.contains_key(k) ==> exists|i: int|
                    0 <= i < self.entries().len() && (#[trigger] self.entries()[i]).0 == k,
        decreases self,
    {
        match self {
            Tree::Empty => {},
            Tree::Node { key, value, left, right, .. } => {
                left.lemma_entries_are_contents();
                right.lemma_entries_are_contents();
                let row = self.entries();
                let low = left.entries().push((*key, *value));
                let mid = left.entries().len() as int;
                assert(row == low + right.entries());
                lemma_trichotomy(*key, *key);
                assert forall|k: K| left@.contains_key(k) implies !right@.contains_key(k) by {
                    if right@.contains_key(k) {
                        lemma_lt_transitive(k, *key, k);
                        lemma_trichotomy(k, k);
                    }
                }
                assert forall|i: int| 0 <= i < row.len() implies self@.contains_key(
                    (#[trigger] row[i]).0,
                ) && self@[row[i].0] == row[i].1 by {
                    if i < mid {
                        assert(row[i] == left.entries()[i]);
                    } else if i == mid {
                        assert(row[i] == (*key, *value));
                    } else {
                        assert(row[i] == right.entries()[i - mid - 1]);
                    }
                }
                assert forall|k: K| #[trigger] self@.contains_key(k) implies exists|i: int|
                    0 <= i < row.len() && (#[trigger] row[i]).0 == k by {
                    if left@.contains_key(k) {
                        let i = choose|i: int|
                            0 <= i < left.entries().len() && (#[trigger] left.entries()[i]).0 == k;
                        assert(row[i] == left.entries()[i]);
                    } else if right@.contains_key(k) {
                        let i = choose|i: int|
                            0 <= i < right.entries().len() && (#[trigger] right.entries()[i]).0 == k;
                        assert(row[mid + 1 + i] == right.entries()[i]);
                    } else {
                        assert(row[mid] == (*key, *value));
                    }
                }
            },
        }
    }

    /// A search tree holds finitely many entries, as many as its in-order
    /// walk meets.
    pub proof fn lemma_entries_counted(&self)
        requires
            self.ordered(),
            lawful_keys::<K>(),
        ensures
            self@.dom().finite(),
            self@.len() == self.entries().len(),
        decreases self,
    {
        match self {
            Tree::Empty => {},
            Tree::Node { key, left, right, .. } => {
                left.lemma_entries_counted();
                right.lemma_entries_counted();
                lemma_trichotomy(*key, *key);
                assert forall|k: K| left@.contains_key(k) implies !right@.contains_key(k) by {
                    if right@.contains_key(k) {
                        lemma_lt_transitive(k, *key, k);
                        lemma_trichotomy(k, k);
                    }
                }
                let both = left@.dom() + right@.dom();
                assert(left@.dom().disjoint(right@.dom()));
                lemma_set_disjoint_lens(left@.dom(), right@.dom());
                assert(!both.contains(*key));
                assert(self@.dom() =~= both.insert(*key));
            },
        }
    }

    /// The in-order walk of a search tree is strictly ascending: of any two
    /// entries, the one met first has the smaller key.
    pub proof fn lemma_entries_ascending(&self)
        requires
            self.ordered(),
            lawful_keys::<K>(),
        ensures
            forall|i: int, j: int|
                0 <= i < j < self.entries().len() ==> key_lt(
                    (#[trigger] self.entries()[i]).0,
                    (#[trigger] self.entries()[j]).0,
                ),
        decreases self,
    {
        match self {
            Tree::Empty => {},
            Tree::Node { key, value, left, right, .. } => {
                left.lemma_entries_ascending();
                right.lemma_entries_ascending();
                left.lemma_entries_are_contents();
                right.lemma_entries_are_contents();
                let row = self.entries();
                let low = left.entries().push((*key, *value));
                let mid = left.entries().len() as int;
                assert(row == low + right.entries());
                assert forall|i: int, j: int| 0 <= i < j < row.len() implies key_lt(
                    (#[trigger] row[i]).0,
                    (#[trigger] row[j]).0,
                ) by {
                    if i < mid {
                        assert(row[i] == left.entries()[i]);
                        assert(left@.contains_key(row[i].0));
                    } else if i == mid {
                        assert(row[i] == (*key, *value));
                    } else {
                        assert(row[i] == right.entries()[i - mid - 1]);
                    }
                    if j < mid {
                        assert(row[j] == left.entries()[j]);
                    } else if j == mid {
                        assert(row[j] == (*key, *value));
                    } else {
                        assert(row[j] == right.entries()[j - mid - 1]);
                        assert(right@.contains_key(row[j].0));
                    }
                    if i < mid && j > mid {
                        lemma_lt_transitive(row[i].0, *key, row[j].0);
                    }
                }
            },
        }
    }
}

impl<K, V> Tree<K, V> {
    /// A balanced tree is shallow: its height is logarithmic in the number
    /// of its entries. With `n` entries the height `h` obeys
    /// `2^(h/2) <= n + 1`.
    pub proof fn lemma_height_logarithmic(&self)
        requires
            self.balanced(),
        ensures
            pow2(self.spec_height() / 2) <= self.entries().len() + 1,
        decreases self,
    {
        match self {
            Tree::Empty => {
                lemma2_to64();
            },
            Tree::Node { left, right, .. } => {
                left.lemma_height_logarithmic();
                right.lemma_height_logarithmic();
                let h = self.spec_height();
                assert(self.entries().len() == left.entries().len() + 1 + right.entries().len());
                if h == 1 {
                    lemma2_to64();
                } else {
                    let half = ((h - 2) / 2) as nat;
                    assert(h / 2 == half + 1);
                    lemma_pow2_unfold(h / 2);
                    assert(left.spec_height() >= h - 2 && right.spec_height() >= h - 2);
                    assert(left.spec_height() / 2 >= half);
                    assert(right.spec_height() / 2 >= half);
                    if left.spec_height() / 2 > half {
                        lemma_pow2_strictly_increases(half, left.spec_height() / 2);
                    }
                    if right.spec_height() / 2 > half {
                        lemma_pow2_strictly_increases(half, right.spec_height() / 2);
                    }
                }
            },
        }
    }
}

} // verus!

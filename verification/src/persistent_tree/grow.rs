//! Putting a subtree that an insertion has rebuilt back under its parent.
//!
//! An insertion can make a subtree one higher, and where that leaves its
//! parent out of balance, the parent rotates. The nodes a rotation takes
//! apart are the ones the insertion has just built. They are kept unshared
//! until the parent has looked at them, so that no entry is cloned twice.

use super::node::{height_of, Parts};
use super::Tree;
use crate::key_order::{key_lt, lawful_keys, lemma_lt_transitive, lemma_trichotomy};
use std::rc::Rc;
use vstd::prelude::*;

verus! {

/// What an insertion hands back to the node above it. Whatever may still
/// have to be rotated stays unshared until that node has looked at it.
pub(super) enum Rebuilt<K, V> {
    /// A subtree exactly as high as the one it replaces.
    Level(Parts<K, V>),
    /// A single node where there was none.
    Leaf(K, V),
    /// A subtree one higher than the one it replaces: the side that grew is
    /// one higher than the other.
    Taller { key: K, value: V, left_heavy: bool, heavy: Parts<K, V>, light: Rc<Tree<K, V>> },
}

impl<K: Ord, V> Rebuilt<K, V> {
    /// The map the subtree will stand for.
    pub(super) open spec fn contents(&self) -> Map<K, V> {
        match *self {
            Rebuilt::Level(parts) => parts.contents(),
            Rebuilt::Leaf(key, value) => Map::empty().insert(key, value),
            Rebuilt::Taller { key, value, left_heavy, heavy, light } => if left_heavy {
                heavy.contents().union_prefer_right(light.contents()).insert(key, value)
            } else {
                light.contents().union_prefer_right(heavy.contents()).insert(key, value)
            },
        }
    }

    /// The height the subtree will have.
    pub(super) open spec fn spec_height(&self) -> nat {
        match *self {
            Rebuilt::Level(parts) => parts.spec_height(),
            Rebuilt::Leaf(..) => 1,
            Rebuilt::Taller { heavy, .. } => 1 + heavy.spec_height(),
        }
    }

    /// The height of the subtree that this one replaces.
    pub(super) open spec fn base_height(&self) -> int {
        match *self {
            Rebuilt::Level(parts) => parts.spec_height() as int,
            _ => self.spec_height() - 1,
        }
    }

    /// What is kept apart is well-formed each by itself, and fits together
    /// into a well-formed subtree.
    pub(super) open spec fn wf(&self) -> bool {
        match *self {
            Rebuilt::Level(parts) => parts.wf(),
            Rebuilt::Leaf(..) => true,
            Rebuilt::Taller { key, left_heavy, heavy, light, .. } => {
                &&& heavy.wf()
                &&& light.wf()
                &&& heavy.spec_height() == light.spec_height() + 1
                &&& forall|k: K| #[trigger]
                    heavy.contents().contains_key(k) ==> if left_heavy {
                        key_lt(k, key)
                    } else {
                        key_lt(key, k)
                    }
                &&& forall|k: K| #[trigger]
                    light.contents().contains_key(k) ==> if left_heavy {
                        key_lt(key, k)
                    } else {
                        key_lt(k, key)
                    }
            },
        }
    }

    /// Shares what was kept apart and gives the finished subtree.
    pub(super) fn seal(self) -> (out: Tree<K, V>)
        requires
            self.wf(),
            self.spec_height() <= usize::MAX,
        ensures
            out.wf(),
            out@ == self.contents(),
            out.spec_height() == self.spec_height(),
    {
        match self {
            Rebuilt::Level(parts) => parts.seal(),
            Rebuilt::Leaf(key, value) => {
                let parts = Parts {
                    key,
                    value,
                    left: Rc::new(Tree::Empty),
                    right: Rc::new(Tree::Empty),
                };
                assert(parts.contents() =~= self.contents());
                parts.seal()
            },
            Rebuilt::Taller { key, value, left_heavy, heavy, light } => {
                let grown = Rc::new(heavy.seal());
                let parts = if left_heavy {
                    Parts { key, value, left: grown, right: light }
                } else {
                    Parts { key, value, left: light, right: grown }
                };
                parts.seal()
            },
        }
    }
}

/// Puts a rebuilt left subtree back under `key`, with `right` as its
/// sibling, and rotates where the left side has grown two higher.
pub(super) fn join_left<K: Ord + Clone, V>(key: K, value: V, grown: Rebuilt<K, V>, right: Rc<Tree<K, V>>) -> (out:
    Rebuilt<K, V>)
    requires
        lawful_keys::<K>(),
        grown.wf(),
        right.wf(),
        forall|k: K| #[trigger] grown.contents().contains_key(k) ==> key_lt(k, key),
        forall|k: K| #[trigger] right.contents().contains_key(k) ==> key_lt(key, k),
        grown.base_height() <= right.spec_height() + 1,
        right.spec_height() <= grown.base_height() + 1,
        grown.spec_height() < usize::MAX,
        right.spec_height() < usize::MAX,
    ensures
        out.wf(),
        !(out is Leaf),
        out.contents() == grown.contents().union_prefer_right(right.contents()).insert(key, value),
        out.base_height() == 1 + if grown.base_height() >= right.spec_height() {
            grown.base_height()
        } else {
            right.spec_height() as int
        },
{
    let hr: usize = height_of(&right);
    let ghost whole = grown.contents().union_prefer_right(right@).insert(key, value);
    match grown {
        Rebuilt::Level(parts) => {
            let out = Rebuilt::Level(Parts { key, value, left: Rc::new(parts.seal()), right });
            assert(out.contents() =~= whole);
            out
        },
        Rebuilt::Leaf(k, v) => {
            let leaf = Parts { key: k, value: v, left: Rc::new(Tree::Empty), right: Rc::new(Tree::Empty) };
            assert(leaf.contents() =~= grown.contents());
            if hr == 0 {
                let out = Rebuilt::Taller { key, value, left_heavy: true, heavy: leaf, light: right };
                assert(out.contents() =~= whole);
                out
            } else {
                let out = Rebuilt::Level(Parts { key, value, left: Rc::new(leaf.seal()), right });
                assert(out.contents() =~= whole);
                out
            }
        },
        Rebuilt::Taller { key: yk, value: yv, left_heavy, heavy, light } => {
            let hh: usize = heavy.height();
            if hr >= hh {
                let below = if left_heavy {
                    Parts { key: yk, value: yv, left: Rc::new(heavy.seal()), right: light }
                } else {
                    Parts { key: yk, value: yv, left: light, right: Rc::new(heavy.seal()) }
                };
                assert(below.contents() =~= grown.contents());
                if hr > hh {
                    let out = Rebuilt::Level(
                        Parts { key, value, left: Rc::new(below.seal()), right },
                    );
                    assert(out.contents() =~= whole);
                    out
                } else {
                    let out = Rebuilt::Taller { key, value, left_heavy: true, heavy: below, light: right };
                    assert(out.contents() =~= whole);
                    out
                }
            } else if left_heavy {
                proof {
                    assert(heavy.contents().contains_key(heavy.key));
                    assert(grown.contents().contains_key(yk));
                    assert forall|k: K| #[trigger] right.contents().contains_key(k) implies key_lt(
                        yk,
                        k,
                    ) by {
                        lemma_lt_transitive(yk, key, k);
                    }
                    assert forall|k: K| #[trigger] light.contents().contains_key(k) implies key_lt(
                        k,
                        key,
                    ) by {
                        assert(grown.contents().contains_key(k));
                    }
                }
                let inner = Parts { key, value, left: light, right };
                let out = Rebuilt::Level(
                    Parts {
                        key: yk,
                        value: yv,
                        left: Rc::new(heavy.seal()),
                        right: Rc::new(inner.seal()),
                    },
                );
                proof {
                    lemma_trichotomy(yk, key);
                    assert(out.contents() =~= whole);
                }
                out
            } else {
                let Parts { key: xk, value: xv, left: xl, right: xr } = heavy;
                proof {
                    assert(heavy.contents().contains_key(xk));
                    assert(grown.contents().contains_key(yk));
                    assert(grown.contents().contains_key(xk));
                    assert forall|k: K| #[trigger] xl.contents().contains_key(k) implies key_lt(
                        yk,
                        k,
                    ) && key_lt(k, key) by {
                        assert(heavy.contents().contains_key(k));
                        assert(grown.contents().contains_key(k));
                    }
                    assert forall|k: K| #[trigger] xr.contents().contains_key(k) implies key_lt(
                        xk,
                        k,
                    ) && key_lt(k, key) by {
                        assert(heavy.contents().contains_key(k));
                        assert(grown.contents().contains_key(k));
                    }
                    assert forall|k: K| #[trigger] light.contents().contains_key(k) implies key_lt(
                        k,
                        xk,
                    ) && key_lt(k, key) by {
                        lemma_lt_transitive(k, yk, xk);
                        assert(grown.contents().contains_key(k));
                    }
                    assert forall|k: K| #[trigger] right.contents().contains_key(k) implies key_lt(
                        xk,
                        k,
                    ) by {
                        lemma_lt_transitive(xk, key, k);
                    }
                }
                let low = Parts { key: yk, value: yv, left: light, right: xl };
                let high = Parts { key, value, left: xr, right };
                let out = Rebuilt::Level(
                    Parts {
                        key: xk,
                        value: xv,
                        left: Rc::new(low.seal()),
                        right: Rc::new(high.seal()),
                    },
                );
                proof {
                    lemma_trichotomy(yk, key);
                    lemma_trichotomy(xk, key);
                    lemma_trichotomy(yk, xk);
                    assert(out.contents() =~= whole);
                }
                out
            }
        },
    }
}

/// Puts a rebuilt right subtree back under `key`, with `left` as its
/// sibling, and rotates where the right side has grown two higher.
pub(super) fn join_right<K: Ord + Clone, V>(key: K, value: V, left: Rc<Tree<K, V>>, grown: Rebuilt<K, V>) -> (out:
    Rebuilt<K, V>)
    requires
        lawful_keys::<K>(),
        grown.wf(),
        left.wf(),
        forall|k: K| #[trigger] left.contents().contains_key(k) ==> key_lt(k, key),
        forall|k: K| #[trigger] grown.contents().contains_key(k) ==> key_lt(key, k),
        grown.base_height() <= left.spec_height() + 1,
        left.spec_height() <= grown.base_height() + 1,
        grown.spec_height() < usize::MAX,
        left.spec_height() < usize::MAX,
    ensures
        out.wf(),
        !(out is Leaf),
        out.contents() == left.contents().union_prefer_right(grown.contents()).insert(key, value),
        out.base_height() == 1 + if grown.base_height() >= left.spec_height() {
            grown.base_height()
        } else {
            left.spec_height() as int
        },
{
    let hl: usize = height_of(&left);
    let ghost whole = left@.union_prefer_right(grown.contents()).insert(key, value);
    match grown {
        Rebuilt::Level(parts) => {
            let out = Rebuilt::Level(Parts { key, value, left, right: Rc::new(parts.seal()) });
            assert(out.contents() =~= whole);
            out
        },
        Rebuilt::Leaf(k, v) => {
            let leaf = Parts { key: k, value: v, left: Rc::new(Tree::Empty), right: Rc::new(Tree::Empty) };
            assert(leaf.contents() =~= grown.contents());
            if hl == 0 {
                let out = Rebuilt::Taller { key, value, left_heavy: false, heavy: leaf, light: left };
                assert(out.contents() =~= whole);
                out
            } else {
                let out = Rebuilt::Level(Parts { key, value, left, right: Rc::new(leaf.seal()) });
                assert(out.contents() =~= whole);
                out
            }
        },
        Rebuilt::Taller { key: yk, value: yv, left_heavy, heavy, light } => {
            let hh: usize = heavy.height();
            if hl >= hh {
                let below = if left_heavy {
                    Parts { key: yk, value: yv, left: Rc::new(heavy.seal()), right: light }
                } else {
                    Parts { key: yk, value: yv, left: light, right: Rc::new(heavy.seal()) }
                };
                assert(below.contents() =~= grown.contents());
                if hl > hh {
                    let out = Rebuilt::Level(
                        Parts { key, value, left, right: Rc::new(below.seal()) },
                    );
                    assert(out.contents() =~= whole);
                    out
                } else {
                    let out = Rebuilt::Taller { key, value, left_heavy: false, heavy: below, light: left };
                    assert(out.contents() =~= whole);
                    out
                }
            } else if !left_heavy {
                proof {
                    assert(heavy.contents().contains_key(heavy.key));
                    assert(grown.contents().contains_key(yk));
                    assert forall|k: K| #[trigger] left.contents().contains_key(k) implies key_lt(
                        k,
                        yk,
                    ) by {
                        lemma_lt_transitive(k, key, yk);
                    }
                    assert forall|k: K| #[trigger] light.contents().contains_key(k) implies key_lt(
                        key,
                        k,
                    ) by {
                        assert(grown.contents().contains_key(k));
                    }
                }
                let inner = Parts { key, value, left, right: light };
                let out = Rebuilt::Level(
                    Parts {
                        key: yk,
                        value: yv,
                        left: Rc::new(inner.seal()),
                        right: Rc::new(heavy.seal()),
                    },
                );
                proof {
                    lemma_trichotomy(yk, key);
                    assert(out.contents() =~= whole);
                }
                out
            } else {
                let Parts { key: xk, value: xv, left: xl, right: xr } = heavy;
                proof {
                    assert(heavy.contents().contains_key(xk));
                    assert(grown.contents().contains_key(yk));
                    assert(grown.contents().contains_key(xk));
                    assert forall|k: K| #[trigger] xl.contents().contains_key(k) implies key_lt(
                        k,
                        xk,
                    ) && key_lt(key, k) by {
                        assert(heavy.contents().contains_key(k));
                        assert(grown.contents().contains_key(k));
                    }
                    assert forall|k: K| #[trigger] xr.contents().contains_key(k) implies key_lt(
                        k,
                        yk,
                    ) && key_lt(key, k) by {
                        assert(heavy.contents().contains_key(k));
                        assert(grown.contents().contains_key(k));
                    }
                    assert forall|k: K| #[trigger] light.contents().contains_key(k) implies key_lt(
                        xk,
                        k,
                    ) && key_lt(key, k) by {
                        lemma_lt_transitive(xk, yk, k);
                        assert(grown.contents().contains_key(k));
                    }
                    assert forall|k: K| #[trigger] left.contents().contains_key(k) implies key_lt(
                        k,
                        xk,
                    ) by {
                        lemma_lt_transitive(k, key, xk);
                    }
                }
                let low = Parts { key, value, left, right: xl };
                let high = Parts { key: yk, value: yv, left: xr, right: light };
                let out = Rebuilt::Level(
                    Parts {
                        key: xk,
                        value: xv,
                        left: Rc::new(low.seal()),
                        right: Rc::new(high.seal()),
                    },
                );
                proof {
                    lemma_trichotomy(yk, key);
                    lemma_trichotomy(xk, key);
                    lemma_trichotomy(yk, xk);
                    assert(out.contents() =~= whole);
                }
                out
            }
        },
    }
}

} // verus!

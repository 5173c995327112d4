//! Putting a subtree that a removal has rebuilt back under its parent.
//!
//! A removal can make a subtree one lower, and where that leaves its parent
//! out of balance, the parent rotates towards the side that shrank. The
//! nodes such a rotation takes apart are on the other side, which the
//! removal has not touched: each is cloned once.

use super::node::{height_of, higher, Parts};
use super::Tree;
use crate::key_order::{key_lt, lawful_keys, lemma_lt_transitive, lemma_trichotomy};
use std::rc::Rc;
use vstd::prelude::*;

verus! {

/// Rebuilds the node `key` above `left` and `right` after the left side may
/// have become one lower, and rotates left where the right side is now two
/// higher. Only nodes of `right` are taken apart, each cloned once.
pub(super) fn mend_left<K: Ord + Clone, V: Clone>(
    key: K,
    value: V,
    left: Rc<Tree<K, V>>,
    right: Rc<Tree<K, V>>,
) -> (out: Rc<Tree<K, V>>)
    requires
        lawful_keys::<K>(),
        left.wf(),
        right.wf(),
        forall|k: K| #[trigger] left.contents().contains_key(k) ==> key_lt(k, key),
        forall|k: K| #[trigger] right.contents().contains_key(k) ==> key_lt(key, k),
        left.spec_height() <= right.spec_height() + 1,
        right.spec_height() <= left.spec_height() + 2,
        left.spec_height() < usize::MAX,
        right.spec_height() < usize::MAX,
    ensures
        out.wf(),
        out@.dom() == left@.dom().union(right@.dom()).insert(key),
        out@[key] == value,
        forall|k: K| #[trigger] left@.contains_key(k) ==> out@[k] == left@[k],
        forall|k: K| #[trigger] right@.contains_key(k) ==> cloned(right@[k], out@[k]),
        out.spec_height() <= 1 + higher(left.spec_height(), right.spec_height()),
        out.spec_height() >= higher(left.spec_height(), right.spec_height()),
        right.spec_height() <= left.spec_height() + 1 ==> out.spec_height() == 1 + higher(
            left.spec_height(),
            right.spec_height(),
        ),
{
    let hl: usize = height_of(&left);
    let ghost whole = left@.union_prefer_right(right@).insert(key, value);
    proof {
        assert forall|k: K| left@.contains_key(k) implies !right@.contains_key(k) by {
            if right@.contains_key(k) {
                lemma_lt_transitive(k, key, k);
                lemma_trichotomy(k, k);
            }
        }
        assert(!left@.contains_key(key) && !right@.contains_key(key)) by {
            lemma_trichotomy(key, key);
        }
    }
    match &*right {
        Tree::Empty => {
            let out = Rc::new(Parts { key, value, left, right: Rc::new(Tree::Empty) }.seal());
            assert(out@.dom() =~= whole.dom());
            out
        },
        Tree::Node { key: rk, value: rv, left: rl, right: rr, height: hr } => {
            if *hr <= hl + 1 {
                let out = Rc::new(Parts { key, value, left, right: right.clone() }.seal());
                assert(out@.dom() =~= whole.dom());
                out
            } else {
                let top_key = rk.clone();
                let top_value = rv.clone();
                let hrr: usize = height_of(rr);
                proof {
                    assert(cloned(*rk, top_key));
                    assert(cloned(*rv, top_value));
                    assert(right@.contains_key(*rk));
                    assert(rl.wf() && rr.wf());
                    assert forall|k: K| #[trigger] rl.contents().contains_key(k) implies key_lt(key, k) by {
                        assert(right@.contains_key(k));
                    }
                    assert forall|k: K| #[trigger] rr.contents().contains_key(k) implies key_lt(key, k) by {
                        assert(right@.contains_key(k));
                    }
                    assert forall|k: K| #[trigger] left.contents().contains_key(k) implies key_lt(k, *rk) by {
                        lemma_lt_transitive(k, key, *rk);
                    }
                    assert forall|k: K| rl@.contains_key(k) implies !rr@.contains_key(k) by {
                        if rr@.contains_key(k) {
                            lemma_lt_transitive(k, *rk, k);
                            lemma_trichotomy(k, k);
                        }
                    }
                    assert(!rl@.contains_key(*rk) && !rr@.contains_key(*rk)) by {
                        lemma_trichotomy(*rk, *rk);
                    }
                }
                match &**rl {
                    Tree::Empty => {
                        let low = Parts { key, value, left, right: Rc::new(Tree::Empty) };
                        let out = Rc::new(
                            Parts {
                                key: top_key,
                                value: top_value,
                                left: Rc::new(low.seal()),
                                right: rr.clone(),
                            }.seal(),
                        );
                        assert(out@.dom() =~= whole.dom());
                        out
                    },
                    Tree::Node { key: xk, value: xv, left: xl, right: xr, height: hx } => {
                        if *hx <= hrr {
                            let low = Parts { key, value, left, right: rl.clone() };
                            let out = Rc::new(
                                Parts {
                                    key: top_key,
                                    value: top_value,
                                    left: Rc::new(low.seal()),
                                    right: rr.clone(),
                                }.seal(),
                            );
                            assert(out@.dom() =~= whole.dom());
                            out
                        } else {
                            let mid_key = xk.clone();
                            let mid_value = xv.clone();
                            proof {
                                assert(cloned(*xk, mid_key));
                                assert(cloned(*xv, mid_value));
                                assert(rl@.contains_key(*xk));
                                assert(right@.contains_key(*xk));
                                assert forall|k: K| #[trigger] xl.contents().contains_key(k) implies key_lt(
                                    key,
                                    k,
                                ) by {
                                    assert(rl@.contains_key(k));
                                }
                                assert forall|k: K| #[trigger] xr.contents().contains_key(k) implies key_lt(
                                    k,
                                    *rk,
                                ) by {
                                    assert(rl@.contains_key(k));
                                }
                                assert forall|k: K| #[trigger] left.contents().contains_key(k) implies key_lt(
                                    k,
                                    *xk,
                                ) by {
                                    lemma_lt_transitive(k, key, *xk);
                                }
                                assert forall|k: K| #[trigger] rr.contents().contains_key(k) implies key_lt(
                                    *xk,
                                    k,
                                ) by {
                                    lemma_lt_transitive(*xk, *rk, k);
                                }
                                assert forall|k: K| xl@.contains_key(k) implies !xr@.contains_key(k) by {
                                    if xr@.contains_key(k) {
                                        lemma_lt_transitive(k, *xk, k);
                                        lemma_trichotomy(k, k);
                                    }
                                }
                                assert(!xl@.contains_key(*xk) && !xr@.contains_key(*xk)) by {
                                    lemma_trichotomy(*xk, *xk);
                                }
                                lemma_trichotomy(*xk, *rk);
                                lemma_trichotomy(key, *xk);
                                lemma_trichotomy(key, *rk);
                            }
                            let low = Parts { key, value, left, right: xl.clone() };
                            let high = Parts {
                                key: top_key,
                                value: top_value,
                                left: xr.clone(),
                                right: rr.clone(),
                            };
                            let out = Rc::new(
                                Parts {
                                    key: mid_key,
                                    value: mid_value,
                                    left: Rc::new(low.seal()),
                                    right: Rc::new(high.seal()),
                                }.seal(),
                            );
                            assert(out@.dom() =~= whole.dom());
                            out
                        }
                    },
                }
            }
        },
    }
}

/// Rebuilds the node `key` above `left` and `right` after the right side may
/// have become one lower, and rotates right where the left side is now two
/// higher. Only nodes of `left` are taken apart, each cloned once.
pub(super) fn mend_right<K: Ord + Clone, V: Clone>(
    key: K,
    value: V,
    left: Rc<Tree<K, V>>,
    right: Rc<Tree<K, V>>,
) -> (out: Rc<Tree<K, V>>)
    requires
        lawful_keys::<K>(),
        left.wf(),
        right.wf(),
        forall|k: K| #[trigger] left.contents().contains_key(k) ==> key_lt(k, key),
        forall|k: K| #[trigger] right.contents().contains_key(k) ==> key_lt(key, k),
        right.spec_height() <= left.spec_height() + 1,
        left.spec_height() <= right.spec_height() + 2,
        left.spec_height() < usize::MAX,
        right.spec_height() < usize::MAX,
    ensures
        out.wf(),
        out@.dom() == left@.dom().union(right@.dom()).insert(key),
        out@[key] == value,
        forall|k: K| #[trigger] right@.contains_key(k) ==> out@[k] == right@[k],
        forall|k: K| #[trigger] left@.contains_key(k) ==> cloned(left@[k], out@[k]),
        out.spec_height() <= 1 + higher(left.spec_height(), right.spec_height()),
        out.spec_height() >= higher(left.spec_height(), right.spec_height()),
        left.spec_height() <= right.spec_height() + 1 ==> out.spec_height() == 1 + higher(
            left.spec_height(),
            right.spec_height(),
        ),
{
    let hr: usize = height_of(&right);
    let ghost whole = left@.union_prefer_right(right@).insert(key, value);
    proof {
        assert forall|k: K| left@.contains_key(k) implies !right@.contains_key(k) by {
            if right@.contains_key(k) {
                lemma_lt_transitive(k, key, k);
                lemma_trichotomy(k, k);
            }
        }
        assert(!left@.contains_key(key) && !right@.contains_key(key)) by {
            lemma_trichotomy(key, key);
        }
    }
    match &*left {
        Tree::Empty => {
            let out = Rc::new(Parts { key, value, left: Rc::new(Tree::Empty), right }.seal());
            assert(out@.dom() =~= whole.dom());
            out
        },
        Tree::Node { key: lk, value: lv, left: ll, right: lr, height: hl } => {
            if *hl <= hr + 1 {
                let out = Rc::new(Parts { key, value, left: left.clone(), right }.seal());
                assert(out@.dom() =~= whole.dom());
                out
            } else {
                let top_key = lk.clone();
                let top_value = lv.clone();
                let hll: usize = height_of(ll);
                proof {
                    assert(cloned(*lk, top_key));
                    assert(cloned(*lv, top_value));
                    assert(left@.contains_key(*lk));
                    assert(ll.wf() && lr.wf());
                    assert forall|k: K| #[trigger] ll.contents().contains_key(k) implies key_lt(k, key) by {
                        assert(left@.contains_key(k));
                    }
                    assert forall|k: K| #[trigger] lr.contents().contains_key(k) implies key_lt(k, key) by {
                        assert(left@.contains_key(k));
                    }
                    assert forall|k: K| #[trigger] right.contents().contains_key(k) implies key_lt(*lk, k) by {
                        lemma_lt_transitive(*lk, key, k);
                    }
                    assert forall|k: K| ll@.contains_key(k) implies !lr@.contains_key(k) by {
                        if lr@.contains_key(k) {
                            lemma_lt_transitive(k, *lk, k);
                            lemma_trichotomy(k, k);
                        }
                    }
                    assert(!ll@.contains_key(*lk) && !lr@.contains_key(*lk)) by {
                        lemma_trichotomy(*lk, *lk);
                    }
                }
                match &**lr {
                    Tree::Empty => {
                        let high = Parts { key, value, left: Rc::new(Tree::Empty), right };
                        let out = Rc::new(
                            Parts {
                                key: top_key,
                                value: top_value,
                                left: ll.clone(),
                                right: Rc::new(high.seal()),
                            }.seal(),
                        );
                        assert(out@.dom() =~= whole.dom());
                        out
                    },
                    Tree::Node { key: xk, value: xv, left: xl, right: xr, height: hx } => {
                        if *hx <= hll {
                            let high = Parts { key, value, left: lr.clone(), right };
                            let out = Rc::new(
                                Parts {
                                    key: top_key,
                                    value: top_value,
                                    left: ll.clone(),
                                    right: Rc::new(high.seal()),
                                }.seal(),
                            );
                            assert(out@.dom() =~= whole.dom());
                            out
                        } else {
                            let mid_key = xk.clone();
                            let mid_value = xv.clone();
                            proof {
                                assert(cloned(*xk, mid_key));
                                assert(cloned(*xv, mid_value));
                                assert(lr@.contains_key(*xk));
                                assert(left@.contains_key(*xk));
                                assert forall|k: K| #[trigger] xr.contents().contains_key(k) implies key_lt(
                                    k,
                                    key,
                                ) by {
                                    assert(lr@.contains_key(k));
                                }
                                assert forall|k: K| #[trigger] xl.contents().contains_key(k) implies key_lt(
                                    *lk,
                                    k,
                                ) by {
                                    assert(lr@.contains_key(k));
                                }
                                assert forall|k: K| #[trigger] right.contents().contains_key(k) implies key_lt(
                                    *xk,
                                    k,
                                ) by {
                                    lemma_lt_transitive(*xk, key, k);
                                }
                                assert forall|k: K| #[trigger] ll.contents().contains_key(k) implies key_lt(
                                    k,
                                    *xk,
                                ) by {
                                    lemma_lt_transitive(k, *lk, *xk);
                                }
                                assert forall|k: K| xl@.contains_key(k) implies !xr@.contains_key(k) by {
                                    if xr@.contains_key(k) {
                                        lemma_lt_transitive(k, *xk, k);
                                        lemma_trichotomy(k, k);
                                    }
                                }
                                assert(!xl@.contains_key(*xk) && !xr@.contains_key(*xk)) by {
                                    lemma_trichotomy(*xk, *xk);
                                }
                                lemma_trichotomy(*xk, *lk);
                                lemma_trichotomy(key, *xk);
                                lemma_trichotomy(key, *lk);
                            }
                            let low = Parts {
                                key: top_key,
                                value: top_value,
                                left: ll.clone(),
                                right: xl.clone(),
                            };
                            let high = Parts { key, value, left: xr.clone(), right };
                            let out = Rc::new(
                                Parts {
                                    key: mid_key,
                                    value: mid_value,
                                    left: Rc::new(low.seal()),
                                    right: Rc::new(high.seal()),
                                }.seal(),
                            );
                            assert(out@.dom() =~= whole.dom());
                            out
                        }
                    },
                }
            }
        },
    }
}

} // verus!

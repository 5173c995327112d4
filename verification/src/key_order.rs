//! What an ordered container asks of its key type, and the facts that follow.
//!
//! `Ord` and `Clone` promise nothing to a verifier by themselves: an impl may
//! order inconsistently or clone into something else. [`lawful_keys`] names
//! the assumptions under which the containers are proved, and the lemmas
//! below turn them into the facts about [`key_lt`] that the proofs use.

use core::cmp::Ordering;
use vstd::laws_cmp::obeys_cmp;
use vstd::laws_eq::obeys_concrete_eq;
use vstd::prelude::*;
use vstd::std_specs::cmp::{OrdSpec, PartialOrdSpec};

verus! {

/// `a` sorts strictly before `b`.
pub open spec fn key_lt<K: PartialOrd>(a: K, b: K) -> bool {
    a.partial_cmp_spec(&b) == Some(Ordering::Less)
}

/// `a` sorts strictly after `b`, as the operator `>` sees it.
pub open spec fn sorts_after<K: PartialOrd>(a: K, b: K) -> bool {
    a.partial_cmp_spec(&b) == Some(Ordering::Greater)
}

/// `a` and `b` sort as equals.
pub open spec fn sorts_same<K: PartialOrd>(a: K, b: K) -> bool {
    a.partial_cmp_spec(&b) == Some(Ordering::Equal)
}

/// Cloning a `T` gives back the very same value.
pub open spec fn clone_exact<T: Clone>() -> bool {
    forall|a: T, b: T| #[trigger] cloned(a, b) ==> a == b
}

/// The key type compares as a strict total order whose equality is identity,
/// and clones faithfully.
pub open spec fn lawful_keys<K: Ord + Clone>() -> bool {
    &&& obeys_cmp::<K>()
    &&& obeys_concrete_eq::<K>()
    &&& clone_exact::<K>()
}

/// What the comparison operators return on lawful keys: `<` decides
/// [`key_lt`], `>` decides it with the sides swapped.
pub proof fn lemma_compare<K: Ord + Clone>(a: K, b: K)
    requires
        lawful_keys::<K>(),
    ensures
        K::obeys_partial_cmp_spec(),
        sorts_after(a, b) <==> key_lt(b, a),
        sorts_same(a, b) <==> a == b,
{
    reveal(vstd::laws_cmp::obeys_cmp_partial_ord);
    reveal(vstd::laws_cmp::obeys_cmp_ord);
    reveal(vstd::laws_cmp::obeys_partial_cmp_spec_properties);
    reveal(obeys_concrete_eq);
}

/// Of two keys exactly one holds: the first sorts first, they are the same
/// key, or the second sorts first.
pub proof fn lemma_trichotomy<K: Ord + Clone>(a: K, b: K)
    requires
        lawful_keys::<K>(),
    ensures
        key_lt(a, b) || a == b || key_lt(b, a),
        !(key_lt(a, b) && a == b),
        !(key_lt(b, a) && a == b),
        !(key_lt(a, b) && key_lt(b, a)),
{
    reveal(vstd::laws_cmp::obeys_cmp_partial_ord);
    reveal(vstd::laws_cmp::obeys_cmp_ord);
    reveal(vstd::laws_cmp::obeys_partial_cmp_spec_properties);
    reveal(obeys_concrete_eq);
    assert(a.partial_cmp_spec(&b) == Some(a.cmp_spec(&b)));
    assert(b.partial_cmp_spec(&a) == Some(b.cmp_spec(&a)));
}

/// [`key_lt`] is transitive.
pub proof fn lemma_lt_transitive<K: Ord + Clone>(a: K, b: K, c: K)
    requires
        lawful_keys::<K>(),
        key_lt(a, b),
        key_lt(b, c),
    ensures
        key_lt(a, c),
{
    reveal(vstd::laws_cmp::obeys_partial_cmp_spec_properties);
}

/// The unsigned 64-bit integers are lawful keys.
pub proof fn lemma_u64_keys_lawful()
    ensures
        lawful_keys::<u64>(),
        clone_exact::<u64>(),
{
    broadcast use vstd::laws_cmp::group_laws_cmp;
    broadcast use vstd::laws_eq::group_laws_eq;

}

/// The unsigned 32-bit integers are lawful keys.
pub proof fn lemma_u32_keys_lawful()
    ensures
        lawful_keys::<u32>(),
        clone_exact::<u32>(),
{
    broadcast use vstd::laws_cmp::group_laws_cmp;
    broadcast use vstd::laws_eq::group_laws_eq;

}

/// The pointer-sized unsigned integers are lawful keys.
pub proof fn lemma_usize_keys_lawful()
    ensures
        lawful_keys::<usize>(),
        clone_exact::<usize>(),
{
    broadcast use vstd::laws_cmp::group_laws_cmp;
    broadcast use vstd::laws_eq::group_laws_eq;

}

/// The signed 64-bit integers are lawful keys.
pub proof fn lemma_i64_keys_lawful()
    ensures
        lawful_keys::<i64>(),
        clone_exact::<i64>(),
{
    broadcast use vstd::laws_cmp::group_laws_cmp;
    broadcast use vstd::laws_eq::group_laws_eq;

}

/// The signed 32-bit integers are lawful keys.
pub proof fn lemma_i32_keys_lawful()
    ensures
        lawful_keys::<i32>(),
        clone_exact::<i32>(),
{
    broadcast use vstd::laws_cmp::group_laws_cmp;
    broadcast use vstd::laws_eq::group_laws_eq;

}

} // verus!

//! Binomial coefficients modulo a number, by Pascal's identity.

use vstd::arithmetic::div_mod::lemma_add_mod_noop;
use vstd::prelude::*;

verus! {

/// The binomial coefficient `n` choose `k`: the number of `k`-element subsets
/// of an `n`-element set.
pub open spec fn binomial(n: nat, k: nat) -> nat
    decreases n,
{
    if k == 0 {
        1
    } else if n == 0 {
        0
    } else {
        binomial((n - 1) as nat, (k - 1) as nat) + binomial((n - 1) as nat, k)
    }
}

/// What [`binomial_mod`] returns. The two ends of a row of Pascal's triangle
/// are the literal `1`, every inner entry is reduced modulo `p`; the two only
/// differ for `p == 1`.
pub open spec fn binomial_mod_spec(n: nat, k: nat, p: nat) -> nat {
    if k == 0 || k == n {
        1
    } else {
        binomial(n, k) % p
    }
}

/// No subset is larger than the set it is taken from.
pub proof fn lemma_binomial_beyond(n: nat, k: nat)
    requires
        k > n,
    ensures
        binomial(n, k) == 0,
    decreases n,
{
    if n > 0 {
        lemma_binomial_beyond((n - 1) as nat, (k - 1) as nat);
        lemma_binomial_beyond((n - 1) as nat, k);
    }
}

/// A set has exactly one subset of its own size.
pub proof fn lemma_binomial_full(n: nat)
    ensures
        binomial(n, n) == 1,
    decreases n,
{
    if n > 0 {
        lemma_binomial_full((n - 1) as nat);
        lemma_binomial_beyond((n - 1) as nat, n);
    }
}

/// Pascal's identity, carried through the reduction modulo `p`.
pub proof fn lemma_binomial_mod_step(n: nat, k: nat, p: nat)
    requires
        0 < k < n,
        p > 0,
    ensures
        binomial_mod_spec(n, k, p) == (binomial_mod_spec((n - 1) as nat, (k - 1) as nat, p)
            + binomial_mod_spec((n - 1) as nat, k, p)) % p,
{
    let a = binomial((n - 1) as nat, (k - 1) as nat);
    let b = binomial((n - 1) as nat, k);
    lemma_binomial_full((n - 1) as nat);
    if p == 1 {
        assert(binomial(n, k) % 1 == 0);
        assert((binomial_mod_spec((n - 1) as nat, (k - 1) as nat, p) + binomial_mod_spec(
            (n - 1) as nat,
            k,
            p,
        )) % 1 == 0);
    } else {
        assert(1nat % p == 1) by {
            vstd::arithmetic::div_mod::lemma_small_mod(1, p);
        }
        assert(binomial_mod_spec((n - 1) as nat, (k - 1) as nat, p) == a % p);
        assert(binomial_mod_spec((n - 1) as nat, k, p) == b % p);
        lemma_add_mod_noop(a as int, b as int, p as int);
    }
}

/// Computes `n` choose `k` modulo `p` by Pascal's identity
/// `C(n, k) = C(n-1, k-1) + C(n-1, k)`.
///
/// The sum of the two smaller coefficients is formed in 128 bits, so no
/// modulus is too large.
pub fn binomial_mod(n: usize, k: usize, p: usize) -> (r: usize)
    requires
        k <= n,
        p > 0,
    ensures
        r == binomial_mod_spec(n as nat, k as nat, p as nat),
    decreases n,
{
    if k == 0 || k == n {
        1
    } else {
        let upper: usize = binomial_mod(n - 1, k - 1, p);
        let lower: usize = binomial_mod(n - 1, k, p);
        proof {
            lemma_binomial_mod_step(n as nat, k as nat, p as nat);
        }
        let sum: u128 = upper as u128 + lower as u128;
        (sum % (p as u128)) as usize
    }
}

} // verus!

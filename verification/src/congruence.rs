//! Congruences modulo a positive integer.

use vstd::arithmetic::div_mod::*;
use vstd::arithmetic::mul::*;
use vstd::prelude::*;

verus! {

/// `a` and `b` are congruent modulo `p`.
pub open spec fn congruent(a: int, b: int, p: int) -> bool {
    a % p == b % p
}

/// A residue is congruent to the number it is the residue of.
pub proof fn lemma_residue_congruent(a: int, p: int)
    requires
        p > 0,
    ensures
        congruent(a % p, a, p),
        0 <= a % p < p,
{
    lemma_mod_twice(a, p);
    lemma_mod_bound(a, p);
}

/// Sums of congruent numbers are congruent.
pub proof fn lemma_congruent_add(a: int, b: int, c: int, d: int, p: int)
    requires
        p > 0,
        congruent(a, c, p),
        congruent(b, d, p),
    ensures
        congruent(a + b, c + d, p),
{
    lemma_add_mod_noop(a, b, p);
    lemma_add_mod_noop(c, d, p);
}

/// Differences of congruent numbers are congruent.
pub proof fn lemma_congruent_sub(a: int, b: int, c: int, d: int, p: int)
    requires
        p > 0,
        congruent(a, c, p),
        congruent(b, d, p),
    ensures
        congruent(a - b, c - d, p),
{
    lemma_sub_mod_noop(a, b, p);
    lemma_sub_mod_noop(c, d, p);
}

/// Products of congruent numbers are congruent.
pub proof fn lemma_congruent_mul(a: int, b: int, c: int, d: int, p: int)
    requires
        p > 0,
        congruent(a, c, p),
        congruent(b, d, p),
    ensures
        congruent(a * b, c * d, p),
{
    lemma_mul_mod_noop_general(a, b, p);
    lemma_mul_mod_noop_general(c, d, p);
}

/// Numbers that differ by a multiple of `p` are congruent.
pub proof fn lemma_congruent_multiple(a: int, k: int, p: int)
    requires
        p > 0,
    ensures
        congruent(a + k * p, a, p),
        congruent(a + p * k, a, p),
        congruent(a - k * p, a, p),
{
    lemma_mod_multiples_vanish(k, a, p);
    lemma_mod_multiples_vanish(-k, a, p);
    assert(p * k == k * p) by (nonlinear_arith);
    assert((-k) * p == -(k * p)) by (nonlinear_arith);
}

/// Congruent numbers differ by a multiple of `p`.
pub proof fn lemma_congruent_difference(a: int, b: int, p: int)
    requires
        p > 0,
        congruent(a, b, p),
    ensures
        a - b == p * (a / p - b / p),
        (a - b) % p == 0,
{
    lemma_fundamental_div_mod(a, p);
    lemma_fundamental_div_mod(b, p);
    assert(a - b == p * (a / p - b / p)) by (nonlinear_arith)
        requires
            a == p * (a / p) + a % p,
            b == p * (b / p) + b % p,
            a % p == b % p,
    ;
    lemma_mod_multiples_basic(a / p - b / p, p);
    assert(p * (a / p - b / p) == (a / p - b / p) * p) by (nonlinear_arith);
}

/// A number whose difference with another is a multiple of `p` is
/// congruent to it.
pub proof fn lemma_congruent_from_difference(a: int, b: int, p: int)
    requires
        p > 0,
        (a - b) % p == 0,
    ensures
        congruent(a, b, p),
{
    lemma_fundamental_div_mod(a - b, p);
    let k = (a - b) / p;
    assert(a == b + k * p) by (nonlinear_arith)
        requires
            a - b == p * k,
    ;
    lemma_congruent_multiple(b, k, p);
}

/// Numbers congruent modulo a multiple of `p` are congruent modulo `p`.
pub proof fn lemma_congruent_divisor(a: int, b: int, q: int, p: int)
    requires
        p > 0,
        q > 0,
        q % p == 0,
        congruent(a, b, q),
    ensures
        congruent(a, b, p),
{
    lemma_congruent_difference(a, b, q);
    lemma_fundamental_div_mod(q, p);
    let c = a / q - b / q;
    let d = q / p;
    assert(a == b + (d * c) * p) by (nonlinear_arith)
        requires
            a - b == q * c,
            q == p * d,
    ;
    lemma_congruent_multiple(b, d * c, p);
}

} // verus!

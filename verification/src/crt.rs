//! The Chinese remainder theorem for a valid basis: residues that agree
//! with a number modulo each modulus stand for that number.

use crate::congruence::{
    congruent, lemma_congruent_add, lemma_congruent_difference, lemma_congruent_mul,
    lemma_congruent_multiple, lemma_residue_congruent,
};
use crate::moduli::{delta_exists, delta_rest, delta_rests};
use crate::rns::{
    cofactor, cofactor_inverse, garner, garner_sum, lemma_product_positive, lift_value, ones,
    product_of, valid_basis,
};
use crate::zq::{mul_mod, neg_mod};
use vstd::arithmetic::div_mod::*;
use vstd::arithmetic::mul::*;
use vstd::prelude::*;

verus! {

/// The sum of the first `k` numbers of `ys`, each times its Garner
/// coefficient.
pub open spec fn garner_combination(moduli: Seq<u64>, ys: Seq<int>, k: nat) -> int
    decreases k,
{
    if k == 0 {
        0
    } else {
        garner_combination(moduli, ys, (k - 1) as nat) + garner(moduli, k - 1) * ys[k - 1]
    }
}

/// Each modulus divides the product of the moduli, and its cofactor is the
/// exact quotient.
pub proof fn lemma_modulus_divides_product(moduli: Seq<u64>, i: int)
    requires
        0 <= i < moduli.len(),
        forall|j: int| 0 <= j < moduli.len() ==> (#[trigger] moduli[j]) >= 1,
    ensures
        product_of(moduli) % (moduli[i] as nat) == 0,
        cofactor(moduli, i) * (moduli[i] as nat) == product_of(moduli),
    decreases moduli.len(),
{
    let q = moduli[i] as int;
    let rest = moduli.drop_last();
    let last = moduli.last() as int;
    let before = product_of(rest) as int;
    lemma_product_positive(rest);
    if i == moduli.len() - 1 {
        lemma_mod_multiples_basic(before, q);
        lemma_div_by_multiple(before, q);
    } else {
        lemma_modulus_divides_product(rest, i);
        let c = cofactor(rest, i) as int;
        assert(before * last == (c * last) * q) by (nonlinear_arith)
            requires
                c * q == before,
        ;
        lemma_mod_multiples_basic(c * last, q);
        assert(c * last >= 0) by (nonlinear_arith)
            requires
                c >= 0,
                last >= 0,
        ;
        lemma_div_by_multiple(c * last, q);
    }
}

/// A Garner coefficient times its modulus is a multiple of the product of
/// the moduli.
pub proof fn lemma_garner_multiple(moduli: Seq<u64>, i: int, c: int)
    requires
        0 <= i < moduli.len(),
        forall|j: int| 0 <= j < moduli.len() ==> (#[trigger] moduli[j]) >= 1,
    ensures
        congruent(garner(moduli, i) * ((moduli[i] as int) * c), 0, product_of(moduli) as int),
{
    let q = moduli[i] as int;
    let big = product_of(moduli) as int;
    lemma_product_positive(moduli);
    lemma_modulus_divides_product(moduli, i);
    let g = garner(moduli, i) as int;
    let co = cofactor(moduli, i) as int;
    match cofactor_inverse(moduli, i) {
        Some(x) => {
            assert(g == co * (x as nat));
            assert(g * (q * c) == ((x as nat) * c) * big) by (nonlinear_arith)
                requires
                    g == co * (x as nat),
                    co * q == big,
            ;
            lemma_congruent_multiple(0, (x as nat) * c, big);
        },
        None => {
            assert(g * (q * c) == 0) by (nonlinear_arith)
                requires
                    g == 0,
            ;
        },
    }
}

/// Combinations of numbers that are congruent modulo each modulus are
/// congruent modulo the product of the moduli.
pub proof fn lemma_combination_congruent(moduli: Seq<u64>, ys: Seq<int>, zs: Seq<int>, k: nat)
    requires
        k <= moduli.len(),
        forall|j: int| 0 <= j < moduli.len() ==> (#[trigger] moduli[j]) >= 1,
        forall|i: int| 0 <= i < k ==> congruent(#[trigger] ys[i], zs[i], moduli[i] as int),
    ensures
        congruent(
            garner_combination(moduli, ys, k),
            garner_combination(moduli, zs, k),
            product_of(moduli) as int,
        ),
    decreases k,
{
    let big = product_of(moduli) as int;
    lemma_product_positive(moduli);
    if k > 0 {
        lemma_combination_congruent(moduli, ys, zs, (k - 1) as nat);
        let i = k - 1;
        let q = moduli[i] as int;
        let g = garner(moduli, i) as int;
        assert(congruent(ys[i], zs[i], q));
        lemma_congruent_difference(ys[i], zs[i], q);
        let c = ys[i] / q - zs[i] / q;
        lemma_garner_multiple(moduli, i, c);
        assert(g * ys[i] == g * zs[i] + g * (q * c)) by (nonlinear_arith)
            requires
                ys[i] - zs[i] == q * c,
        ;
        lemma_congruent_add(g * zs[i], g * (q * c), g * zs[i], 0, big);
        lemma_congruent_add(
            garner_combination(moduli, ys, (k - 1) as nat),
            g * ys[i],
            garner_combination(moduli, zs, (k - 1) as nat),
            g * zs[i],
            big,
        );
    }
}

/// The combination of the multiples by `c` is `c` times the combination.
pub proof fn lemma_combination_scaled(moduli: Seq<u64>, ys: Seq<int>, zs: Seq<int>, c: int, k: nat)
    requires
        forall|i: int| 0 <= i < k ==> #[trigger] zs[i] == c * ys[i],
    ensures
        garner_combination(moduli, zs, k) == c * garner_combination(moduli, ys, k),
    decreases k,
{
    if k > 0 {
        lemma_combination_scaled(moduli, ys, zs, c, (k - 1) as nat);
        let g = garner(moduli, k - 1) as int;
        let before = garner_combination(moduli, ys, (k - 1) as nat);
        assert(zs[k - 1] == c * ys[k - 1]);
        assert(c * before + g * (c * ys[k - 1]) == c * (before + g * ys[k - 1]))
            by (nonlinear_arith);
    }
}

/// The Garner sum of residues is the combination of the residues.
pub proof fn lemma_sum_is_combination(moduli: Seq<u64>, rests: Seq<u64>, ys: Seq<int>, k: nat)
    requires
        forall|i: int| 0 <= i < k ==> #[trigger] ys[i] == rests[i] as int,
    ensures
        garner_sum(moduli, rests, k) == garner_combination(moduli, ys, k),
    decreases k,
{
    if k > 0 {
        lemma_sum_is_combination(moduli, rests, ys, (k - 1) as nat);
        assert(ys[k - 1] == rests[k - 1] as int);
    }
}

/// A combination of numbers that are each congruent to `c * y` modulo their
/// modulus is congruent to `c * y` modulo the product of the moduli.
pub proof fn lemma_combination_of_residues(moduli: Seq<u64>, ys: Seq<int>, y: int)
    requires
        valid_basis(moduli),
        ys.len() == moduli.len(),
        forall|i: int| 0 <= i < moduli.len() ==> congruent(#[trigger] ys[i], y, moduli[i] as int),
    ensures
        congruent(garner_combination(moduli, ys, moduli.len()), y, product_of(moduli) as int),
{
    let n = moduli.len();
    let big = product_of(moduli) as int;
    lemma_product_positive(moduli);
    let constant = Seq::new(n, |i: int| y);
    let units = Seq::new(n, |i: int| 1int);
    lemma_combination_congruent(moduli, ys, constant, n);
    assert forall|i: int| 0 <= i < n implies #[trigger] constant[i] == y * units[i] by {
        assert(y * 1 == y);
    }
    lemma_combination_scaled(moduli, units, constant, y, n);
    lemma_sum_is_combination(moduli, ones(n), units, n);
    let s = garner_sum(moduli, ones(n), n) as int;
    assert(s % big == 1);
    lemma_small_mod(1, big as nat);
    lemma_congruent_mul(y, s, y, 1, big);
    assert(y * 1 == y);
}

/// The number that residues stand for is congruent to every number that
/// the residues agree with modulo each modulus.
pub proof fn lemma_lift_congruent(moduli: Seq<u64>, rests: Seq<u64>, y: int)
    requires
        valid_basis(moduli),
        rests.len() == moduli.len(),
        forall|i: int|
            0 <= i < moduli.len() ==> congruent(#[trigger] rests[i] as int, y, moduli[i] as int),
    ensures
        lift_value(moduli, rests) == y % (product_of(moduli) as int),
{
    let n = moduli.len();
    let ys = Seq::new(n, |i: int| rests[i] as int);
    lemma_sum_is_combination(moduli, rests, ys, n);
    assert forall|i: int| 0 <= i < n implies congruent(#[trigger] ys[i], y, moduli[i] as int) by {
        assert(congruent(rests[i] as int, y, moduli[i] as int));
    }
    lemma_combination_of_residues(moduli, ys, y);
}

/// The residue of `-1/t` modulo `q`, times `t`, is `-1` modulo `q`.
pub proof fn lemma_delta_rest(t: int, q: int)
    requires
        q >= 2,
        delta_rest(t, q) is Some,
    ensures
        congruent(t * delta_rest(t, q).unwrap(), -1, q),
        0 <= delta_rest(t, q).unwrap() < q,
{
    let x = delta_rest(t, q).unwrap();
    let a = neg_mod(t % q, q);
    assert(mul_mod(a, x, q) == 1);
    lemma_mod_bound(vstd::arithmetic::power::pow(a, (q - 2) as nat), q);
    // a == -t (mod q)
    lemma_residue_congruent(t, q);
    lemma_residue_congruent(-(t % q), q);
    crate::congruence::lemma_congruent_sub(0, t % q, 0, t, q);
    assert(congruent(a, -t, q));
    lemma_congruent_mul(a, x, -t, x, q);
    // so -t x == 1, and t x == -1
    lemma_small_mod(1, q as nat);
    assert(congruent((-t) * x, 1, q));
    crate::congruence::lemma_congruent_sub(0, (-t) * x, 0, 1, q);
    assert(0 - (-t) * x == t * x) by (nonlinear_arith);
}

/// The number `-1/t` modulo the product of the moduli, times `t`, is `-1`
/// modulo the product of the moduli.
pub proof fn lemma_delta(t: int, moduli: Seq<u64>)
    requires
        valid_basis(moduli),
        delta_exists(t, moduli),
    ensures
        congruent(
            t * (lift_value(moduli, delta_rests(t, moduli)) as int),
            -1,
            product_of(moduli) as int,
        ),
{
    let n = moduli.len();
    let big = product_of(moduli) as int;
    lemma_product_positive(moduli);
    let rests = delta_rests(t, moduli);
    let ys = Seq::new(n, |i: int| rests[i] as int);
    let zs = Seq::new(n, |i: int| t * ys[i]);
    lemma_sum_is_combination(moduli, rests, ys, n);
    lemma_combination_scaled(moduli, ys, zs, t, n);
    assert forall|i: int| 0 <= i < n implies congruent(#[trigger] zs[i], -1, moduli[i] as int) by {
        assert(delta_rest(t, moduli[i] as int) is Some);
        lemma_delta_rest(t, moduli[i] as int);
    }
    lemma_combination_of_residues(moduli, zs, -1);
    let sum = garner_sum(moduli, rests, n) as int;
    // t * (sum % big) == t * sum == -1
    lemma_residue_congruent(sum, big);
    lemma_congruent_mul(t, sum % big, t, sum, big);
}

/// The product of the moduli is one of them times the product of the
/// others.
pub proof fn lemma_product_remove(moduli: Seq<u64>, i: int)
    requires
        0 <= i < moduli.len(),
    ensures
        product_of(moduli) == (moduli[i] as nat) * product_of(moduli.remove(i)),
    decreases moduli.len(),
{
    let rest = moduli.drop_last();
    let last = moduli.last() as nat;
    if i == moduli.len() - 1 {
        assert(moduli.remove(i) =~= rest);
        assert(product_of(rest) * last == last * product_of(rest)) by (nonlinear_arith);
    } else {
        lemma_product_remove(rest, i);
        assert(moduli.remove(i).drop_last() =~= rest.remove(i));
        assert(moduli.remove(i).last() == moduli.last());
        let q = moduli[i] as nat;
        let others = product_of(rest.remove(i));
        assert((q * others) * last == q * (others * last)) by (nonlinear_arith);
    }
}

/// The cofactor of a modulus is a multiple of every other modulus.
pub proof fn lemma_cofactor_multiple(moduli: Seq<u64>, i: int, j: int)
    requires
        0 <= i < moduli.len(),
        0 <= j < moduli.len(),
        i != j,
        forall|l: int| 0 <= l < moduli.len() ==> (#[trigger] moduli[l]) >= 1,
    ensures
        cofactor(moduli, i) % (moduli[j] as nat) == 0,
{
    let others = moduli.remove(i);
    lemma_product_remove(moduli, i);
    lemma_product_positive(others);
    let q = moduli[i] as int;
    let rest = product_of(others) as int;
    assert(q * rest == rest * q) by (nonlinear_arith);
    lemma_div_by_multiple(rest, q);
    assert(cofactor(moduli, i) == rest);
    let at = if j < i {
        j
    } else {
        j - 1
    };
    assert(others[at] == moduli[j]);
    lemma_modulus_divides_product(others, at);
}

/// A Garner coefficient is 1 modulo its modulus and 0 modulo every other.
pub proof fn lemma_garner_residue(moduli: Seq<u64>, i: int, j: int)
    requires
        valid_basis(moduli),
        0 <= i < moduli.len(),
        0 <= j < moduli.len(),
    ensures
        congruent(garner(moduli, i) as int, if i == j { 1int } else { 0int }, moduli[j] as int),
{
    let q = moduli[j] as int;
    let co = cofactor(moduli, i) as int;
    assert(cofactor_inverse(moduli, i) is Some);
    let x = cofactor_inverse(moduli, i).unwrap();
    let g = garner(moduli, i) as int;
    lemma_mod_bound(vstd::arithmetic::power::pow(co % q, (q - 2) as nat), moduli[i] as int);
    assert(g == co * x);
    if i == j {
        assert(mul_mod(co % q, x, q) == 1);
        lemma_residue_congruent(co, q);
        lemma_congruent_mul(co % q, x, co, x, q);
        lemma_small_mod(1, q as nat);
    } else {
        lemma_cofactor_multiple(moduli, i, j);
        lemma_small_mod(0, q as nat);
        lemma_congruent_mul(co, x, 0, x, q);
        assert(0 * x == 0);
    }
}

/// The Garner sum of residues is, modulo the modulus at `j`, the residue
/// at `j` where `j` is among the first `k`, and 0 where it is not.
pub proof fn lemma_garner_sum_residue(moduli: Seq<u64>, rests: Seq<u64>, k: nat, j: int)
    requires
        valid_basis(moduli),
        k <= moduli.len(),
        0 <= j < moduli.len(),
    ensures
        congruent(
            garner_sum(moduli, rests, k) as int,
            if j < k { rests[j] as int } else { 0int },
            moduli[j] as int,
        ),
    decreases k,
{
    let q = moduli[j] as int;
    if k > 0 {
        lemma_garner_sum_residue(moduli, rests, (k - 1) as nat, j);
        let i = k - 1;
        let g = garner(moduli, i) as int;
        let r = rests[i] as int;
        lemma_garner_residue(moduli, i, j);
        let unit = if i == j { 1int } else { 0int };
        lemma_congruent_mul(g, r, unit, r, q);
        assert(1 * r == r && 0 * r == 0);
        let before = garner_sum(moduli, rests, (k - 1) as nat) as int;
        let expected = if j < k - 1 { rests[j] as int } else { 0int };
        lemma_congruent_add(before, g * r, expected, unit * r, q);
    }
}

/// The number that residues stand for has these residues.
pub proof fn lemma_lift_residue(moduli: Seq<u64>, rests: Seq<u64>, j: int)
    requires
        valid_basis(moduli),
        rests.len() == moduli.len(),
        0 <= j < moduli.len(),
    ensures
        congruent(lift_value(moduli, rests) as int, rests[j] as int, moduli[j] as int),
{
    let q = moduli[j] as int;
    let big = product_of(moduli) as int;
    let sum = garner_sum(moduli, rests, moduli.len()) as int;
    lemma_product_positive(moduli);
    lemma_garner_sum_residue(moduli, rests, moduli.len(), j);
    lemma_modulus_divides_product(moduli, j);
    lemma_residue_congruent(sum, big);
    crate::congruence::lemma_congruent_divisor(sum % big, sum, big, q);
}

/// The product of the moduli of two lists together is the product of
/// their products.
pub proof fn lemma_product_concat(a: Seq<u64>, b: Seq<u64>)
    ensures
        product_of(a + b) == product_of(a) * product_of(b),
    decreases b.len(),
{
    if b.len() == 0 {
        assert(a + b =~= a);
        assert(product_of(b) == 1);
        assert(product_of(a) * 1 == product_of(a));
    } else {
        let rest = b.drop_last();
        let last = b.last() as nat;
        assert((a + b).drop_last() =~= a + rest);
        assert((a + b).last() == b.last());
        lemma_product_concat(a, rest);
        let pa = product_of(a);
        let pr = product_of(rest);
        assert(product_of(a + b) == product_of(a + rest) * last);
        assert(product_of(b) == pr * last);
        assert((pa * pr) * last == pa * (pr * last)) by (nonlinear_arith);
    }
}

} // verus!

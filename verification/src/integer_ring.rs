//! Polynomials with integer coefficients modulo `X^n + 1`, and the rows of
//! residues that stand for them.

use crate::congruence::{
    congruent, lemma_congruent_add, lemma_congruent_mul, lemma_residue_congruent,
};
use crate::convolution::{
    lemma_convolution, lemma_sum_congruent, lemma_sum_linear, negacyclic_product, sum, wrap_terms,
};
use crate::correctness::lemma_centered_residue;
use crate::crt::{lemma_lift_congruent, lemma_lift_residue};
use crate::rns::{lemma_product_at_least_two, lift_value, product_of};
use crate::rows_algebra::{lemma_forward_rows_linear, lemma_valid_ring, lincomb_rows};
use crate::rq::{column, forward_rows, mul_rows, valid_ring, well_shaped};
use crate::scaler::centered;
use crate::zq::is_reduced;
use vstd::arithmetic::div_mod::*;
use vstd::prelude::*;

verus! {

/// The terms of the coefficient `k` of the product of `x` and `y` modulo
/// `X^n + 1`.
pub open spec fn ring_terms(x: Seq<int>, y: Seq<int>, k: int) -> spec_fn(int) -> int {
    |i: int|
        if i <= k {
            x[i] * y[k - i]
        } else {
            -(x[i] * y[k - i + x.len()])
        }
}

/// The product of `x` and `y` modulo `X^n + 1`, over the integers.
pub open spec fn ring_product(x: Seq<int>, y: Seq<int>) -> Seq<int> {
    Seq::new(x.len(), |k: int| sum(ring_terms(x, y, k), x.len()))
}

/// The combination `a x + b y`, coefficient by coefficient.
pub open spec fn combine(x: Seq<int>, y: Seq<int>, a: int, b: int) -> Seq<int> {
    Seq::new(x.len(), |j: int| a * x[j] + b * y[j])
}

/// The residues of the coefficients of `x` modulo `q`.
pub open spec fn residues_modulo(x: Seq<int>, q: int) -> Seq<u64> {
    Seq::new(x.len(), |j: int| (x[j] % q) as u64)
}

/// The rows of residues of the coefficients of `x`.
pub open spec fn residues(x: Seq<int>, moduli: Seq<u64>) -> Seq<Seq<u64>> {
    Seq::new(moduli.len(), |i: int| residues_modulo(x, moduli[i] as int))
}

/// The integers nearest to zero that the columns of the rows stand for.
pub open spec fn centered_coefficients(rows: Seq<Seq<u64>>, moduli: Seq<u64>, n: nat) -> Seq<int> {
    Seq::new(n, |j: int| centered(lift_value(moduli, column(rows, j)), product_of(moduli)))
}

/// Every coefficient of `x` is at most `bound` in absolute value.
pub open spec fn bounded(x: Seq<int>, bound: int) -> bool {
    forall|j: int| 0 <= j < x.len() ==> -bound <= #[trigger] x[j] <= bound
}

/// The product is linear in its first factor.
pub proof fn lemma_product_left(x1: Seq<int>, x2: Seq<int>, y: Seq<int>, a: int, b: int)
    requires
        x1.len() == x2.len(),
        x1.len() == y.len(),
    ensures
        ring_product(combine(x1, x2, a, b), y) == combine(
            ring_product(x1, y),
            ring_product(x2, y),
            a,
            b,
        ),
{
    let n = x1.len();
    let c = combine(x1, x2, a, b);
    let left = ring_product(c, y);
    let right = combine(ring_product(x1, y), ring_product(x2, y), a, b);
    assert forall|k: int| 0 <= k < n implies left[k] == right[k] by {
        let f1 = ring_terms(x1, y, k);
        let f2 = ring_terms(x2, y, k);
        let h = ring_terms(c, y, k);
        assert forall|i: int| 0 <= i < n implies #[trigger] h(i) == a * f1(i) + b * f2(i) by {
            if i <= k {
                let v = y[k - i];
                assert((a * x1[i] + b * x2[i]) * v == a * (x1[i] * v) + b * (x2[i] * v))
                    by (nonlinear_arith);
            } else {
                let v = y[k - i + n];
                assert(-((a * x1[i] + b * x2[i]) * v) == a * (-(x1[i] * v)) + b * (-(x2[i] * v)))
                    by (nonlinear_arith);
            }
        }
        lemma_sum_linear(f1, f2, a, b, h, n);
    }
    assert(left =~= right);
}

/// The product is linear in its second factor.
pub proof fn lemma_product_right(x: Seq<int>, y1: Seq<int>, y2: Seq<int>, a: int, b: int)
    requires
        y1.len() == y2.len(),
        x.len() == y1.len(),
    ensures
        ring_product(x, combine(y1, y2, a, b)) == combine(
            ring_product(x, y1),
            ring_product(x, y2),
            a,
            b,
        ),
{
    let n = x.len();
    let c = combine(y1, y2, a, b);
    let left = ring_product(x, c);
    let right = combine(ring_product(x, y1), ring_product(x, y2), a, b);
    assert forall|k: int| 0 <= k < n implies left[k] == right[k] by {
        let f1 = ring_terms(x, y1, k);
        let f2 = ring_terms(x, y2, k);
        let h = ring_terms(x, c, k);
        assert forall|i: int| 0 <= i < n implies #[trigger] h(i) == a * f1(i) + b * f2(i) by {
            let u = x[i];
            if i <= k {
                let v1 = y1[k - i];
                let v2 = y2[k - i];
                assert(u * (a * v1 + b * v2) == a * (u * v1) + b * (u * v2)) by (nonlinear_arith);
            } else {
                let v1 = y1[k - i + n];
                let v2 = y2[k - i + n];
                assert(-(u * (a * v1 + b * v2)) == a * (-(u * v1)) + b * (-(u * v2)))
                    by (nonlinear_arith);
            }
        }
        lemma_sum_linear(f1, f2, a, b, h, n);
    }
    assert(left =~= right);
}

/// A sum of `m` terms that are at most `bound` in absolute value is at
/// most `m` times `bound` in absolute value.
pub proof fn lemma_sum_bounded(f: spec_fn(int) -> int, m: nat, bound: int)
    requires
        forall|i: int| 0 <= i < m ==> -bound <= #[trigger] f(i) <= bound,
    ensures
        -(m * bound) <= sum(f, m) <= m * bound,
    decreases m,
{
    if m > 0 {
        lemma_sum_bounded(f, (m - 1) as nat, bound);
        assert(-bound <= f(m - 1) <= bound);
        assert(m * bound == (m - 1) * bound + bound) by (nonlinear_arith);
    }
}

/// The product of polynomials with bounded coefficients has bounded
/// coefficients.
pub proof fn lemma_product_bounded(x: Seq<int>, y: Seq<int>, bx: int, by: int)
    requires
        x.len() == y.len(),
        bx >= 0,
        by >= 0,
        bounded(x, bx),
        bounded(y, by),
    ensures
        bounded(ring_product(x, y), x.len() * (bx * by)),
        ring_product(x, y).len() == x.len(),
{
    let n = x.len();
    let p = ring_product(x, y);
    assert forall|k: int| 0 <= k < n implies -(n * (bx * by)) <= #[trigger] p[k] <= n * (bx
        * by) by {
        let f = ring_terms(x, y, k);
        assert forall|i: int| 0 <= i < n implies -(bx * by) <= #[trigger] f(i) <= bx * by by {
            let u = x[i];
            let v = if i <= k {
                y[k - i]
            } else {
                y[k - i + n]
            };
            assert(-bx <= u <= bx);
            assert(-by <= v <= by);
            assert(-(bx * by) <= u * v <= bx * by) by (nonlinear_arith)
                requires
                    -bx <= u <= bx,
                    -by <= v <= by,
            ;
        }
        lemma_sum_bounded(f, n, bx * by);
    }
}

/// A combination of polynomials with bounded coefficients has bounded
/// coefficients.
pub proof fn lemma_combine_bounded(x: Seq<int>, y: Seq<int>, a: int, b: int, bx: int, by: int)
    requires
        x.len() == y.len(),
        bx >= 0,
        by >= 0,
        bounded(x, bx),
        bounded(y, by),
        -1 <= a <= 1,
        -1 <= b <= 1,
    ensures
        bounded(combine(x, y, a, b), bx + by),
{
    let c = combine(x, y, a, b);
    assert forall|j: int| 0 <= j < c.len() implies -(bx + by) <= #[trigger] c[j] <= bx + by by {
        let u = x[j];
        let v = y[j];
        assert(-bx <= u <= bx);
        assert(-by <= v <= by);
        assert(-bx <= a * u <= bx) by (nonlinear_arith)
            requires
                -1 <= a <= 1,
                -bx <= u <= bx,
        ;
        assert(-by <= b * v <= by) by (nonlinear_arith)
            requires
                -1 <= b <= 1,
                -by <= v <= by,
        ;
    }
}

/// The negacyclic product of the residues of `x` and `y` modulo `q` is
/// the residues of their product.
pub proof fn lemma_product_residues(x: Seq<int>, y: Seq<int>, q: int)
    requires
        2 <= q < 0x4000_0000_0000_0000,
        x.len() == y.len(),
    ensures
        negacyclic_product(residues_modulo(x, q), residues_modulo(y, q), q) == residues_modulo(
            ring_product(x, y),
            q,
        ),
{
    let n = x.len();
    let rx = residues_modulo(x, q);
    let ry = residues_modulo(y, q);
    let left = negacyclic_product(rx, ry, q);
    let right = residues_modulo(ring_product(x, y), q);
    assert forall|k: int| 0 <= k < n implies left[k] == right[k] by {
        let f = wrap_terms(rx, ry, -1, k);
        let g = ring_terms(x, y, k);
        assert forall|i: int| 0 <= i < n implies congruent(#[trigger] f(i), g(i), q) by {
            lemma_mod_bound(x[i], q);
            lemma_residue_congruent(x[i], q);
            assert(rx[i] == x[i] % q);
            if i <= k {
                lemma_mod_bound(y[k - i], q);
                lemma_residue_congruent(y[k - i], q);
                assert(ry[k - i] == y[k - i] % q);
                lemma_congruent_mul(x[i] % q, y[k - i] % q, x[i], y[k - i], q);
            } else {
                let v = y[k - i + n];
                lemma_mod_bound(v, q);
                lemma_residue_congruent(v, q);
                assert(ry[k - i + n] == v % q);
                lemma_congruent_mul(x[i] % q, v % q, x[i], v, q);
                lemma_congruent_mul(-1, (x[i] % q) * (v % q), -1, x[i] * v, q);
                assert((-1) * (x[i] * v) == -(x[i] * v));
            }
        }
        lemma_sum_congruent(f, g, n, q);
        lemma_mod_bound(sum(f, n), q);
    }
    assert(left =~= right);
}

/// The rows of residues of a polynomial have the shape of the ring.
pub proof fn lemma_residues_shape(x: Seq<int>, moduli: Seq<u64>, n: nat)
    requires
        valid_ring(moduli, n),
        x.len() == n,
    ensures
        well_shaped(residues(x, moduli), moduli, n),
{
    let r = residues(x, moduli);
    assert forall|i: int| 0 <= i < r.len() implies (#[trigger] r[i]).len() == n && is_reduced(
        r[i],
        moduli[i] as int,
    ) by {
        lemma_valid_ring(moduli, n, i);
        assert forall|j: int| 0 <= j < n implies (#[trigger] r[i][j]) < moduli[i] by {
            lemma_mod_bound(x[j], moduli[i] as int);
        }
    }
}

/// The entry-wise product of the transforms of the residues of `x` and `y`
/// is the transform of the residues of their product.
pub proof fn lemma_residues_product(x: Seq<int>, y: Seq<int>, moduli: Seq<u64>, n: nat)
    requires
        valid_ring(moduli, n),
        x.len() == n,
        y.len() == n,
    ensures
        mul_rows(
            forward_rows(residues(x, moduli), moduli, n),
            forward_rows(residues(y, moduli), moduli, n),
            moduli,
        ) == forward_rows(residues(ring_product(x, y), moduli), moduli, n),
{
    let rx = residues(x, moduli);
    let ry = residues(y, moduli);
    lemma_residues_shape(x, moduli, n);
    lemma_residues_shape(y, moduli, n);
    let left = mul_rows(forward_rows(rx, moduli, n), forward_rows(ry, moduli, n), moduli);
    let right = forward_rows(residues(ring_product(x, y), moduli), moduli, n);
    assert forall|i: int| 0 <= i < moduli.len() implies left[i] == right[i] by {
        lemma_valid_ring(moduli, n, i);
        let q = moduli[i] as int;
        lemma_convolution(rx[i], ry[i], q, n);
        lemma_product_residues(x, y, q);
    }
    assert(left =~= right);
}

/// The combination of the transforms of the residues of `x` and `y` is the
/// transform of the residues of their combination.
pub proof fn lemma_residues_combine(
    x: Seq<int>,
    y: Seq<int>,
    a: int,
    b: int,
    moduli: Seq<u64>,
    n: nat,
)
    requires
        valid_ring(moduli, n),
        x.len() == n,
        y.len() == n,
    ensures
        lincomb_rows(
            forward_rows(residues(x, moduli), moduli, n),
            forward_rows(residues(y, moduli), moduli, n),
            a,
            b,
            moduli,
        ) == forward_rows(residues(combine(x, y, a, b), moduli), moduli, n),
{
    let rx = residues(x, moduli);
    let ry = residues(y, moduli);
    lemma_residues_shape(x, moduli, n);
    lemma_residues_shape(y, moduli, n);
    lemma_forward_rows_linear(rx, ry, a, b, moduli, n);
    let combined = lincomb_rows(rx, ry, a, b, moduli);
    let target = residues(combine(x, y, a, b), moduli);
    assert forall|i: int| 0 <= i < moduli.len() implies combined[i] =~= target[i] by {
        lemma_valid_ring(moduli, n, i);
        let q = moduli[i] as int;
        assert forall|j: int| 0 <= j < n implies combined[i][j] == target[i][j] by {
            lemma_mod_bound(x[j], q);
            lemma_mod_bound(y[j], q);
            lemma_residue_congruent(x[j], q);
            lemma_residue_congruent(y[j], q);
            lemma_congruent_mul(a, x[j] % q, a, x[j], q);
            lemma_congruent_mul(b, y[j] % q, b, y[j], q);
            lemma_congruent_add(a * (x[j] % q), b * (y[j] % q), a * x[j], b * y[j], q);
        }
    }
    assert(combined =~= target);
}

/// The rows of the ring are the residues of their centered coefficients.
pub proof fn lemma_residues_of_centered(rows: Seq<Seq<u64>>, moduli: Seq<u64>, n: nat)
    requires
        valid_ring(moduli, n),
        well_shaped(rows, moduli, n),
    ensures
        residues(centered_coefficients(rows, moduli, n), moduli) == rows,
        centered_coefficients(rows, moduli, n).len() == n,
        forall|j: int|
            0 <= j < n ==> -(product_of(moduli) as int) <= 2 * (#[trigger] centered_coefficients(
                rows,
                moduli,
                n,
            )[j]) < product_of(moduli),
{
    let big = product_of(moduli) as int;
    lemma_product_at_least_two(moduli);
    let c = centered_coefficients(rows, moduli, n);
    let r = residues(c, moduli);
    assert forall|i: int| 0 <= i < moduli.len() implies r[i] =~= rows[i] by {
        lemma_valid_ring(moduli, n, i);
        let q = moduli[i] as int;
        assert forall|j: int| 0 <= j < n implies r[i][j] == rows[i][j] by {
            let col = column(rows, j);
            let x = lift_value(moduli, col) as int;
            lemma_lift_residue(moduli, col, i);
            lemma_mod_bound(
                crate::rns::garner_sum(moduli, col, moduli.len()) as int,
                big,
            );
            // the centered number differs from x by a multiple of the product
            crate::crt::lemma_modulus_divides_product(moduli, i);
            crate::congruence::lemma_congruent_multiple(x, 1, big);
            assert(congruent(c[j], x, big)) by {
                if 2 * x >= big {
                    assert(c[j] == x - 1 * big);
                }
            }
            crate::congruence::lemma_congruent_divisor(c[j], x, big, q);
            assert(col[i] == rows[i][j]);
            lemma_small_mod(rows[i][j] as nat, q as nat);
        }
    }
    assert(r =~= rows);
    assert forall|j: int| 0 <= j < n implies -big <= 2 * (#[trigger] c[j]) < big by {
        lemma_mod_bound(
            crate::rns::garner_sum(moduli, column(rows, j), moduli.len()) as int,
            big,
        );
    }
}

/// A polynomial whose coefficients are less than half the product of the
/// moduli in absolute value is the centered coefficients of its residues.
pub proof fn lemma_centered_of_residues(x: Seq<int>, moduli: Seq<u64>, n: nat)
    requires
        valid_ring(moduli, n),
        x.len() == n,
        forall|j: int|
            0 <= j < n ==> -(product_of(moduli) as int) <= 2 * (#[trigger] x[j]) < product_of(
                moduli,
            ),
    ensures
        centered_coefficients(residues(x, moduli), moduli, n) == x,
{
    let big = product_of(moduli) as int;
    lemma_product_at_least_two(moduli);
    let r = residues(x, moduli);
    let c = centered_coefficients(r, moduli, n);
    assert forall|j: int| 0 <= j < n implies c[j] == x[j] by {
        let col = column(r, j);
        assert forall|i: int| 0 <= i < moduli.len() implies congruent(
            #[trigger] col[i] as int,
            x[j],
            moduli[i] as int,
        ) by {
            lemma_valid_ring(moduli, n, i);
            lemma_mod_bound(x[j], moduli[i] as int);
            lemma_residue_congruent(x[j], moduli[i] as int);
        }
        lemma_lift_congruent(moduli, col, x[j]);
        lemma_mod_bound(x[j], big);
        assert(-big <= 2 * x[j] < big);
        lemma_centered_residue(x[j], big);
    }
    assert(c =~= x);
}

/// Polynomials with the same residues are congruent modulo the product of
/// the moduli, coefficient by coefficient.
pub proof fn lemma_residues_equal(x: Seq<int>, y: Seq<int>, moduli: Seq<u64>, n: nat, j: int)
    requires
        valid_ring(moduli, n),
        x.len() == n,
        y.len() == n,
        residues(x, moduli) == residues(y, moduli),
        0 <= j < n,
    ensures
        congruent(x[j], y[j], product_of(moduli) as int),
{
    let r = residues(x, moduli);
    let col = column(r, j);
    assert forall|i: int| 0 <= i < moduli.len() implies congruent(
        #[trigger] col[i] as int,
        x[j],
        moduli[i] as int,
    ) && congruent(col[i] as int, y[j], moduli[i] as int) by {
        lemma_valid_ring(moduli, n, i);
        lemma_mod_bound(x[j], moduli[i] as int);
        lemma_residue_congruent(x[j], moduli[i] as int);
        lemma_mod_bound(y[j], moduli[i] as int);
        lemma_residue_congruent(y[j], moduli[i] as int);
        assert(residues(y, moduli)[i][j] == r[i][j]);
    }
    lemma_lift_congruent(moduli, col, x[j]);
    lemma_lift_congruent(moduli, col, y[j]);
}

} // verus!

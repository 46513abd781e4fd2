//! Decryption undoes encryption, and sums, differences and opposites of
//! ciphertexts decrypt to the sums, differences and opposites of their
//! plaintexts, as long as the noise stays within the budget of the
//! parameters.

use crate::ciphertext::{add_limbs, neg_limbs, sub_limbs, Ciphertext};
use crate::congruence::{
    congruent, lemma_congruent_add, lemma_congruent_difference, lemma_congruent_from_difference,
    lemma_congruent_mul, lemma_congruent_multiple, lemma_residue_congruent,
};
use crate::crt::{lemma_delta, lemma_lift_congruent};
use crate::moduli::{delta_exists, delta_rests};
use crate::parameters::delta_rows;
use crate::plaintext::Plaintext;
use crate::rns::{lemma_product_at_least_two, lift_value, product_of, project_value};
use crate::rows_algebra::{
    lemma_add_rows_is_lincomb, lemma_backward_forward_rows, lemma_cancel_rows,
    lemma_forward_rows_linear, lemma_forward_rows_shape, lemma_lincomb_rows_shape,
    lemma_mul_by_constant, lemma_neg_rows_is_lincomb, lemma_sub_rows_is_lincomb,
    lemma_valid_ring, lincomb_rows, scaled_by,
};
use crate::rq::{
    add_rows, column, forward_rows, mul_rows, seeded_rows, small_rows, sub_rows, valid_ring,
    value_rows, well_shaped,
};
use crate::sampling::{cbd_of, lemma_ones_in_bound, ones_in};
use vstd::arithmetic::power2::pow2;
use crate::scaler::{centered, rounded, scaled_coefficient, scaled_rows};
use crate::secret_key::{decrypted, phase, SecretKey};
use crate::zq::{add_seq, is_reduced, mul_mod, neg_seq, scale_seq, sub_seq};
use vstd::arithmetic::div_mod::*;
use vstd::prelude::*;

verus! {

/// The number `-1/t` modulo the product of the moduli.
pub open spec fn delta_value(t: u64, moduli: Seq<u64>) -> int {
    lift_value(moduli, delta_rests(t as int, moduli)) as int
}

/// The rows of residues of the polynomial `e + delta * m`.
pub open spec fn noisy_rows(e: Seq<int>, m: Seq<int>, delta: int, moduli: Seq<u64>, n: nat) -> Seq<
    Seq<u64>,
> {
    Seq::new(
        moduli.len(),
        |i: int| Seq::new(n, |j: int| ((e[j] + delta * m[j]) % (moduli[i] as int)) as u64),
    )
}

/// The two limbs hold, under the secret `s`, the message `m` scaled by
/// `-1/t` with the noise `e`: their phase is the transform of `e + delta m`.
pub open spec fn carries(
    limbs: Seq<Seq<Seq<u64>>>,
    s: Seq<Seq<u64>>,
    e: Seq<int>,
    m: Seq<int>,
    t: u64,
    moduli: Seq<u64>,
    n: nat,
) -> bool {
    &&& limbs.len() == 2
    &&& well_shaped(limbs[0], moduli, n)
    &&& well_shaped(limbs[1], moduli, n)
    &&& phase(limbs, s, moduli, 0) == forward_rows(
        noisy_rows(e, m, delta_value(t, moduli), moduli, n),
        moduli,
        n,
    )
}

/// The noise that the words give, coefficient by coefficient.
pub open spec fn noise_values(words: Seq<u64>, variance: nat, n: nat) -> Seq<int> {
    Seq::new(n, |j: int| cbd_of(words[j] as nat, variance))
}

/// The coefficients of a plaintext, each times `Q mod t` modulo `t`.
pub open spec fn message_values(coefficients: Seq<u64>, q_mod_t: int, t: int) -> Seq<int> {
    Seq::new(coefficients.len(), |j: int| mul_mod(coefficients[j] as int, q_mod_t, t))
}

/// The limb-wise combination of two lists of limbs.
pub open spec fn comb_limbs(
    a: Seq<Seq<Seq<u64>>>,
    b: Seq<Seq<Seq<u64>>>,
    alpha: int,
    beta: int,
    moduli: Seq<u64>,
) -> Seq<Seq<Seq<u64>>> {
    Seq::new(a.len(), |k: int| lincomb_rows(a[k], b[k], alpha, beta, moduli))
}

/// The noise `e` and the message `m` are within the budget of the
/// ciphertext modulus `q`: scaling by `t / q` and rounding removes the
/// noise.
pub open spec fn within_budget(e: Seq<int>, m: Seq<int>, t: int, q: int) -> bool {
    forall|j: int| 0 <= j < e.len() ==> -q <= 2 * (t * #[trigger] e[j] - m[j]) < q
}

/// The noise of words is at most twice the variance in absolute value.
pub proof fn lemma_noise_bound(words: Seq<u64>, variance: nat, n: nat, j: int)
    requires
        0 <= j < n,
    ensures
        noise_values(words, variance, n)[j] <= 2 * variance,
        noise_values(words, variance, n)[j] + 2 * variance >= 0,
{
    let w = words[j] as nat;
    let low = ones_in(w, 2 * variance);
    let high = ones_in(w / pow2(2 * variance), 2 * variance);
    lemma_ones_in_bound(w, 2 * variance);
    lemma_ones_in_bound(w / pow2(2 * variance), 2 * variance);
    assert(noise_values(words, variance, n)[j] == low - high);
}

/// The rows of `e + delta m` have the shape of the ring.
pub proof fn lemma_noisy_rows_shape(e: Seq<int>, m: Seq<int>, delta: int, moduli: Seq<u64>, n: nat)
    requires
        valid_ring(moduli, n),
    ensures
        well_shaped(noisy_rows(e, m, delta, moduli, n), moduli, n),
{
    let r = noisy_rows(e, m, delta, moduli, n);
    assert forall|i: int| 0 <= i < r.len() implies (#[trigger] r[i]).len() == n && is_reduced(
        r[i],
        moduli[i] as int,
    ) by {
        lemma_valid_ring(moduli, n, i);
        assert forall|j: int| 0 <= j < n implies (#[trigger] r[i][j]) < moduli[i] by {
            lemma_mod_bound(e[j] + delta * m[j], moduli[i] as int);
        }
    }
}

/// Scaling the centered number of `x` by `t / q` and rounding: where `x`
/// stands for `e + d m` with `t d = -1` modulo `q`, and the noise is within
/// the budget, the result `u` satisfies `q u = m` modulo `t` and is at most
/// `t / 2` in absolute value.
pub proof fn lemma_rounding(x: nat, e: int, m: int, d: int, t: int, q: int)
    requires
        q > 0,
        t > 0,
        x < q,
        congruent(x as int, e + d * m, q),
        congruent(t * d, -1, q),
        -q <= 2 * (t * e - m) < q,
    ensures
        congruent(q * rounded(centered(x, q as nat), t as nat, q as nat), m, t),
        -t <= 2 * rounded(centered(x, q as nat), t as nat, q as nat) <= t,
{
    let xc = centered(x, q as nat);
    let u = rounded(xc, t as nat, q as nat);
    // xc == e + d m + q r
    lemma_congruent_multiple(x as int, 1, q);
    assert(congruent(xc, e + d * m, q)) by {
        if 2 * x >= q {
            assert(x as int - 1 * q == xc);
        }
    }
    lemma_congruent_difference(xc, e + d * m, q);
    let r = xc / q - (e + d * m) / q;
    // t d + 1 == q k
    lemma_congruent_difference(t * d, -1, q);
    let k = (t * d) / q - (-1int) / q;
    let rest = 2 * (t * e - m) + q;
    let td = t * d;
    assert(td == q * k - 1);
    assert(xc * t == e * t + (d * m) * t + (q * r) * t) by (nonlinear_arith)
        requires
            xc == e + d * m + q * r,
    ;
    assert((d * m) * t == td * m) by (nonlinear_arith)
        requires
            td == t * d,
    ;
    assert(td * m == (q * k) * m - m) by (nonlinear_arith)
        requires
            td == q * k - 1,
    ;
    assert((q * k) * m == q * (k * m)) by (nonlinear_arith);
    assert((q * r) * t == q * (t * r)) by (nonlinear_arith);
    assert(e * t == t * e) by (nonlinear_arith);
    assert(xc * t == t * e - m + q * (k * m) + q * (t * r));
    assert(q * (k * m) + q * (t * r) == q * (k * m + t * r)) by (nonlinear_arith);
    assert(2 * xc * t == 2 * (xc * t)) by (nonlinear_arith);
    assert((k * m + t * r) * (2 * q) == 2 * (q * (k * m + t * r))) by (nonlinear_arith);
    assert(2 * xc * t + q == (k * m + t * r) * (2 * q) + rest);
    lemma_fundamental_div_mod_converse(2 * xc * t + q, 2 * q, k * m + t * r, rest);
    assert(u == k * m + t * r);
    // q u - m == t (d m + q r)
    assert(q * u == q * (k * m) + q * (t * r)) by (nonlinear_arith)
        requires
            u == k * m + t * r,
    ;
    assert(q * (k * m) == td * m + m);
    assert(q * (t * r) == (q * r) * t);
    assert(td * m == (d * m) * t);
    assert((d * m) * t + (q * r) * t == (d * m + q * r) * t) by (nonlinear_arith);
    assert(q * u - m == (d * m + q * r) * t);
    lemma_mod_multiples_basic(d * m + q * r, t);
    lemma_congruent_from_difference(q * u, m, t);
    // the size of u
    assert(-q <= 2 * xc < q);
    assert(2 * u <= t && -t <= 2 * u) by (nonlinear_arith)
        requires
            2 * xc * t + q == u * (2 * q) + rest,
            0 <= rest < 2 * q,
            -q <= 2 * xc < q,
            t > 0,
            q > 0,
    ;
}

/// The centered representative of the residue of a small number is the
/// number.
pub proof fn lemma_centered_residue(u: int, q: int)
    requires
        q > 0,
        -q <= 2 * u < q,
    ensures
        centered((u % q) as nat, q as nat) == u,
{
    if u >= 0 {
        lemma_small_mod(u as nat, q as nat);
    } else {
        lemma_mod_add_multiples_vanish(u, q);
        lemma_small_mod((u + q) as nat, q as nat);
    }
}

/// Where `t d = -1` modulo `q`, a number `u` with `q u = (q mod t) mu`
/// modulo `t` is `mu` modulo `t`.
pub proof fn lemma_unscale(u: int, m: int, mu: int, d: int, t: int, q: int)
    requires
        q > 0,
        t > 0,
        congruent(t * d, -1, q),
        congruent(q * u, m, t),
        congruent(m, (q % t) * mu, t),
    ensures
        u % t == mu % t,
{
    // k q == t d + 1 == 1 (mod t)
    lemma_congruent_difference(t * d, -1, q);
    let k = (t * d) / q - (-1int) / q;
    assert(k * q == d * t + 1) by (nonlinear_arith)
        requires
            t * d - (-1) == q * k,
    ;
    lemma_congruent_multiple(1, d, t);
    assert(congruent(k * q, 1, t));
    // q u == q mu (mod t)
    lemma_residue_congruent(q, t);
    lemma_congruent_mul(q % t, mu, q, mu, t);
    assert(congruent(q * u, q * mu, t));
    // times k
    lemma_congruent_mul(k, q * u, k, q * mu, t);
    lemma_congruent_mul(k * q, u, 1, u, t);
    lemma_congruent_mul(k * q, mu, 1, mu, t);
    assert(k * (q * u) == (k * q) * u) by (nonlinear_arith);
    assert(k * (q * mu) == (k * q) * mu) by (nonlinear_arith);
    assert(1 * u == u && 1 * mu == mu);
}

/// Decryption of a carried message: where the phase `c` is the transform
/// of `e + delta m`, the noise is within the budget, and `m` is `mu` times
/// `Q mod t` modulo `t`, the phase decrypts to `mu` modulo `t`.
pub proof fn lemma_decrypt_carried(
    c: Seq<Seq<u64>>,
    e: Seq<int>,
    m: Seq<int>,
    mu: Seq<int>,
    t: u64,
    moduli: Seq<u64>,
    n: nat,
)
    requires
        valid_ring(moduli, n),
        delta_exists(t as int, moduli),
        2 <= t,
        t < moduli[0],
        e.len() == n,
        m.len() == n,
        mu.len() == n,
        c == forward_rows(noisy_rows(e, m, delta_value(t, moduli), moduli, n), moduli, n),
        within_budget(e, m, t as int, product_of(moduli) as int),
        forall|j: int|
            0 <= j < n ==> congruent(
                #[trigger] m[j],
                ((product_of(moduli) as int) % (t as int)) * mu[j],
                t as int,
            ),
    ensures
        decrypted(c, t, moduli, n) == Seq::new(n, |j: int| (mu[j] % (t as int)) as u64),
{
    let big = product_of(moduli) as int;
    let d = delta_value(t, moduli);
    let ti = t as int;
    let q0 = moduli[0] as int;
    lemma_product_at_least_two(moduli);
    lemma_valid_ring(moduli, n, 0);
    let r = noisy_rows(e, m, d, moduli, n);
    lemma_noisy_rows_shape(e, m, d, moduli, n);
    lemma_backward_forward_rows(r, moduli, n);
    lemma_delta(ti, moduli);
    let scaled = scaled_rows(r, moduli, moduli.take(1), n, t as nat, big as nat);
    let got = decrypted(c, t, moduli, n);
    let want = Seq::new(n, |j: int| (mu[j] % ti) as u64);
    assert forall|j: int| 0 <= j < n implies got[j] == want[j] by {
        let col = column(r, j);
        let y = e[j] + d * m[j];
        assert forall|i: int| 0 <= i < moduli.len() implies congruent(
            #[trigger] col[i] as int,
            y,
            moduli[i] as int,
        ) by {
            lemma_valid_ring(moduli, n, i);
            lemma_residue_congruent(y, moduli[i] as int);
        }
        lemma_lift_congruent(moduli, col, y);
        let x = lift_value(moduli, col);
        lemma_residue_congruent(y, big);
        assert(-big <= 2 * (ti * e[j] - m[j]) < big);
        lemma_rounding(x, e[j], m[j], d, ti, big);
        let u = rounded(centered(x, big as nat), t as nat, big as nat);
        assert(scaled_coefficient(r, j, moduli, t as nat, big as nat) == u);
        assert(moduli.take(1)[0] == moduli[0]);
        assert(scaled[0][j] == (u % q0) as u64);
        lemma_mod_bound(u, q0);
        lemma_centered_residue(u, q0);
        lemma_unscale(u, m[j], mu[j], d, ti, big);
        lemma_mod_bound(mu[j], ti);
    }
    assert(got =~= want);
}

/// `(alpha a1 + beta b1) s + (alpha a0 + beta b0)` is
/// `alpha (a1 s + a0) + beta (b1 s + b0)`.
pub proof fn lemma_affine(alpha: int, a1: int, a0: int, beta: int, b1: int, b0: int, s: int)
    ensures
        (alpha * a1 + beta * b1) * s + (alpha * a0 + beta * b0) == alpha * (a1 * s + a0) + beta
            * (b1 * s + b0),
{
    assert((alpha * a1 + beta * b1) * s == (alpha * a1) * s + (beta * b1) * s)
        by (nonlinear_arith);
    assert((alpha * a1) * s == alpha * (a1 * s)) by (nonlinear_arith);
    assert((beta * b1) * s == beta * (b1 * s)) by (nonlinear_arith);
    assert(alpha * (a1 * s + a0) == alpha * (a1 * s) + alpha * a0) by (nonlinear_arith);
    assert(beta * (b1 * s + b0) == beta * (b1 * s) + beta * b0) by (nonlinear_arith);
}

/// `alpha (ea + d ma) + beta (eb + d mb)` is
/// `(alpha ea + beta eb) + d (alpha ma + beta mb)`.
pub proof fn lemma_combine(alpha: int, ea: int, ma: int, beta: int, eb: int, mb: int, d: int)
    ensures
        alpha * (ea + d * ma) + beta * (eb + d * mb) == (alpha * ea + beta * eb) + d * (alpha * ma
            + beta * mb),
{
    assert(alpha * (ea + d * ma) == alpha * ea + alpha * (d * ma)) by (nonlinear_arith);
    assert(beta * (eb + d * mb) == beta * eb + beta * (d * mb)) by (nonlinear_arith);
    assert(alpha * (d * ma) == d * (alpha * ma)) by (nonlinear_arith);
    assert(beta * (d * mb) == d * (beta * mb)) by (nonlinear_arith);
    assert(d * (alpha * ma + beta * mb) == d * (alpha * ma) + d * (beta * mb))
        by (nonlinear_arith);
}

/// The phase of a combination of two pairs of limbs is the combination of
/// their phases.
pub proof fn lemma_phase_linear(
    la: Seq<Seq<Seq<u64>>>,
    lb: Seq<Seq<Seq<u64>>>,
    s: Seq<Seq<u64>>,
    alpha: int,
    beta: int,
    moduli: Seq<u64>,
    n: nat,
)
    requires
        valid_ring(moduli, n),
        la.len() == 2,
        lb.len() == 2,
        well_shaped(la[0], moduli, n),
        well_shaped(la[1], moduli, n),
        well_shaped(lb[0], moduli, n),
        well_shaped(lb[1], moduli, n),
        well_shaped(s, moduli, n),
    ensures
        phase(comb_limbs(la, lb, alpha, beta, moduli), s, moduli, 0) == lincomb_rows(
            phase(la, s, moduli, 0),
            phase(lb, s, moduli, 0),
            alpha,
            beta,
            moduli,
        ),
{
    reveal_with_fuel(phase, 3);
    let lc = comb_limbs(la, lb, alpha, beta, moduli);
    let left = phase(lc, s, moduli, 0);
    let pa = phase(la, s, moduli, 0);
    let pb = phase(lb, s, moduli, 0);
    let right = lincomb_rows(pa, pb, alpha, beta, moduli);
    assert(left == add_rows(mul_rows(lc[1], s, moduli), lc[0], moduli));
    assert(pa == add_rows(mul_rows(la[1], s, moduli), la[0], moduli));
    assert(pb == add_rows(mul_rows(lb[1], s, moduli), lb[0], moduli));
    assert forall|i: int| 0 <= i < moduli.len() implies left[i] =~= right[i] by {
        lemma_valid_ring(moduli, n, i);
        let q = moduli[i] as int;
        assert forall|j: int| 0 <= j < n implies left[i][j] == right[i][j] by {
            let a0 = la[0][i][j] as int;
            let a1 = la[1][i][j] as int;
            let b0 = lb[0][i][j] as int;
            let b1 = lb[1][i][j] as int;
            let sv = s[i][j] as int;
            let c0 = (alpha * a0 + beta * b0) % q;
            let c1 = (alpha * a1 + beta * b1) % q;
            lemma_mod_bound(alpha * a0 + beta * b0, q);
            lemma_mod_bound(alpha * a1 + beta * b1, q);
            assert(lc[0][i][j] == c0);
            assert(lc[1][i][j] == c1);
            // left
            lemma_residue_congruent(alpha * a0 + beta * b0, q);
            lemma_residue_congruent(alpha * a1 + beta * b1, q);
            lemma_residue_congruent(c1 * sv, q);
            lemma_congruent_mul(c1, sv, alpha * a1 + beta * b1, sv, q);
            lemma_congruent_add(
                mul_mod(c1, sv, q),
                c0,
                (alpha * a1 + beta * b1) * sv,
                alpha * a0 + beta * b0,
                q,
            );
            // right
            let pav = (mul_mod(a1, sv, q) + a0) % q;
            let pbv = (mul_mod(b1, sv, q) + b0) % q;
            lemma_mod_bound(mul_mod(a1, sv, q) + a0, q);
            lemma_mod_bound(mul_mod(b1, sv, q) + b0, q);
            assert(pa[i][j] == pav);
            assert(pb[i][j] == pbv);
            lemma_residue_congruent(a1 * sv, q);
            lemma_residue_congruent(b1 * sv, q);
            lemma_residue_congruent(mul_mod(a1, sv, q) + a0, q);
            lemma_residue_congruent(mul_mod(b1, sv, q) + b0, q);
            lemma_congruent_add(mul_mod(a1, sv, q), a0, a1 * sv, a0, q);
            lemma_congruent_add(mul_mod(b1, sv, q), b0, b1 * sv, b0, q);
            lemma_congruent_mul(alpha, pav, alpha, a1 * sv + a0, q);
            lemma_congruent_mul(beta, pbv, beta, b1 * sv + b0, q);
            lemma_congruent_add(
                alpha * pav,
                beta * pbv,
                alpha * (a1 * sv + a0),
                beta * (b1 * sv + b0),
                q,
            );
            lemma_affine(alpha, a1, a0, beta, b1, b0, sv);
        }
    }
    assert(left =~= right);
}

/// A combination of two pairs of limbs carries the combination of their
/// messages with the combination of their noises.
pub proof fn lemma_combination_carries(
    la: Seq<Seq<Seq<u64>>>,
    lb: Seq<Seq<Seq<u64>>>,
    s: Seq<Seq<u64>>,
    ea: Seq<int>,
    ma: Seq<int>,
    eb: Seq<int>,
    mb: Seq<int>,
    alpha: int,
    beta: int,
    t: u64,
    moduli: Seq<u64>,
    n: nat,
)
    requires
        valid_ring(moduli, n),
        well_shaped(s, moduli, n),
        carries(la, s, ea, ma, t, moduli, n),
        carries(lb, s, eb, mb, t, moduli, n),
    ensures
        carries(
            comb_limbs(la, lb, alpha, beta, moduli),
            s,
            Seq::new(n, |j: int| alpha * ea[j] + beta * eb[j]),
            Seq::new(n, |j: int| alpha * ma[j] + beta * mb[j]),
            t,
            moduli,
            n,
        ),
{
    let d = delta_value(t, moduli);
    let ra = noisy_rows(ea, ma, d, moduli, n);
    let rb = noisy_rows(eb, mb, d, moduli, n);
    let ec = Seq::new(n, |j: int| alpha * ea[j] + beta * eb[j]);
    let mc = Seq::new(n, |j: int| alpha * ma[j] + beta * mb[j]);
    let rc = noisy_rows(ec, mc, d, moduli, n);
    let lc = comb_limbs(la, lb, alpha, beta, moduli);
    lemma_phase_linear(la, lb, s, alpha, beta, moduli, n);
    lemma_noisy_rows_shape(ea, ma, d, moduli, n);
    lemma_noisy_rows_shape(eb, mb, d, moduli, n);
    lemma_forward_rows_linear(ra, rb, alpha, beta, moduli, n);
    lemma_lincomb_rows_shape(la[0], lb[0], alpha, beta, moduli, n);
    lemma_lincomb_rows_shape(la[1], lb[1], alpha, beta, moduli, n);
    let combined = lincomb_rows(ra, rb, alpha, beta, moduli);
    assert forall|i: int| 0 <= i < moduli.len() implies combined[i] =~= rc[i] by {
        lemma_valid_ring(moduli, n, i);
        let q = moduli[i] as int;
        assert forall|j: int| 0 <= j < n implies combined[i][j] == rc[i][j] by {
            let va = ea[j] + d * ma[j];
            let vb = eb[j] + d * mb[j];
            lemma_mod_bound(va, q);
            lemma_mod_bound(vb, q);
            lemma_residue_congruent(va, q);
            lemma_residue_congruent(vb, q);
            lemma_congruent_mul(alpha, va % q, alpha, va, q);
            lemma_congruent_mul(beta, vb % q, beta, vb, q);
            lemma_congruent_add(alpha * (va % q), beta * (vb % q), alpha * va, beta * vb, q);
            lemma_combine(alpha, ea[j], ma[j], beta, eb[j], mb[j], d);
        }
    }
    assert(combined =~= rc);
}

/// The rows that a seed gives, the rows of noise and the rows of a scaled
/// plaintext have the shape of the ring.
pub proof fn lemma_material_shape(
    seed: Seq<u8>,
    words: Seq<u64>,
    variance: nat,
    values: Seq<u64>,
    moduli: Seq<u64>,
    n: nat,
)
    requires
        valid_ring(moduli, n),
    ensures
        well_shaped(seeded_rows(seed, moduli, n), moduli, n),
        well_shaped(small_rows(words, variance, moduli, n), moduli, n),
        well_shaped(value_rows(values, moduli, n), moduli, n),
{
    let a = seeded_rows(seed, moduli, n);
    let e = small_rows(words, variance, moduli, n);
    let v = value_rows(values, moduli, n);
    let stream = crate::sampling::chacha8_words(seed, 2 * n * moduli.len());
    assert forall|i: int| 0 <= i < moduli.len() implies (#[trigger] a[i]).len() == n && is_reduced(
        a[i],
        moduli[i] as int,
    ) && (#[trigger] e[i]).len() == n && is_reduced(e[i], moduli[i] as int) && (
    #[trigger] v[i]).len() == n && is_reduced(v[i], moduli[i] as int) by {
        lemma_valid_ring(moduli, n, i);
        let q = moduli[i] as int;
        let part = stream.subrange(2 * n * i, 2 * n * (i + 1));
        assert forall|j: int| 0 <= j < n implies (#[trigger] a[i][j]) < q by {
            lemma_mod_bound(
                (part[2 * j] as int) * crate::zq::word() + (part[2 * j + 1] as int),
                q,
            );
        }
        assert forall|j: int| 0 <= j < n implies (#[trigger] e[i][j]) < q by {
            lemma_mod_bound(cbd_of(words[j] as nat, variance), q);
        }
        assert forall|j: int| 0 <= j < n implies (#[trigger] v[i][j]) < q by {
            if j < values.len() {
                lemma_mod_bound(values[j] as int, q);
            }
        }
    }
}

/// A fresh encryption carries the message of its plaintext with the noise
/// of its words.
pub proof fn lemma_fresh_carries(sk: &SecretKey, pt: &Plaintext, seed: Seq<u8>, words: Seq<u64>)
    requires
        sk.wf(),
        pt.wf(),
        sk.parameters().same_as(pt.parameters()),
    ensures
        carries(
            sk.encryption(pt, seed, words),
            sk.secret().rows(),
            noise_values(
                words,
                sk.parameters().variance() as nat,
                sk.parameters().degree() as nat,
            ),
            message_values(
                pt.coefficients(),
                sk.parameters().q_mod_t() as int,
                sk.parameters().plaintext_modulus() as int,
            ),
            sk.parameters().plaintext_modulus(),
            sk.parameters().moduli()@,
            sk.parameters().degree() as nat,
        ),
{
    let par = sk.parameters();
    let moduli = par.moduli()@;
    let n = par.degree() as nat;
    let t = par.plaintext_modulus();
    let ti = t as int;
    let variance = par.variance() as nat;
    let qmt = par.q_mod_t() as int;
    let d = delta_value(t, moduli);
    let s = sk.secret().rows();
    assert(valid_ring(moduli, n));
    let a = seeded_rows(seed, moduli, n);
    let e_rows = small_rows(words, variance, moduli, n);
    let v = scale_seq(pt.coefficients(), qmt, ti);
    let vr = value_rows(v, moduli, n);
    lemma_material_shape(seed, words, variance, v, moduli, n);
    let m_rows = Ciphertext::plain_rows_of(pt);
    let limbs = sk.encryption(pt, seed, words);
    let e = noise_values(words, variance, n);
    let m = message_values(pt.coefficients(), qmt, ti);
    // the plaintext has the same derived data as the key
    assert(pt.parameters().q_mod_t() == par.q_mod_t());
    assert(pt.parameters().delta().rows() == delta_rows(t, moduli, n));
    let fe = forward_rows(e_rows, moduli, n);
    lemma_forward_rows_shape(e_rows, moduli, n);
    lemma_forward_rows_shape(vr, moduli, n);
    // the scaled plaintext is the transform of the values times delta
    lemma_mul_by_constant(vr, d as nat, moduli, n);
    let sv = scaled_by(vr, project_value(moduli, d as nat), moduli);
    assert(m_rows == forward_rows(sv, moduli, n));
    assert(well_shaped(sv, moduli, n)) by {
        lemma_lincomb_shape_scaled(vr, project_value(moduli, d as nat), moduli, n);
    }
    lemma_forward_rows_shape(sv, moduli, n);
    // the phase
    reveal_with_fuel(phase, 3);
    let p = mul_rows(a, s, moduli);
    assert(well_shaped(p, moduli, n)) by {
        assert forall|i: int| 0 <= i < p.len() implies (#[trigger] p[i]).len() == n && is_reduced(
            p[i],
            moduli[i] as int,
        ) by {
            lemma_valid_ring(moduli, n, i);
            assert forall|j: int| 0 <= j < n implies (#[trigger] p[i][j]) < moduli[i] by {
                lemma_mod_bound((a[i][j] as int) * (s[i][j] as int), moduli[i] as int);
            }
        }
    }
    assert(limbs[1] == a);
    assert(limbs[0] == add_rows(sub_rows(fe, p, moduli), m_rows, moduli));
    assert(phase(limbs, s, moduli, 0) == add_rows(p, limbs[0], moduli));
    lemma_cancel_rows(p, fe, m_rows, moduli, n);
    lemma_add_rows_is_lincomb(fe, m_rows, moduli);
    lemma_forward_rows_linear(e_rows, sv, 1, 1, moduli, n);
    let sum = lincomb_rows(e_rows, sv, 1, 1, moduli);
    let target = noisy_rows(e, m, d, moduli, n);
    assert forall|i: int| 0 <= i < moduli.len() implies sum[i] =~= target[i] by {
        lemma_valid_ring(moduli, n, i);
        let q = moduli[i] as int;
        let di = project_value(moduli, d as nat)[i] as int;
        lemma_mod_bound(d, q);
        assert(di == d % q);
        assert forall|j: int| 0 <= j < n implies sum[i][j] == target[i][j] by {
            let ev = cbd_of(words[j] as nat, variance);
            lemma_mod_bound(ev, q);
            lemma_mod_bound((pt.coefficients()[j] as int) * qmt, ti);
            let mv = m[j];
            assert(v[j] == mv);
            lemma_mod_bound(mv, q);
            assert(vr[i][j] == mv % q);
            let scaled = (di * (mv % q) + 0 * (mv % q)) % q;
            lemma_mod_bound(di * (mv % q) + 0 * (mv % q), q);
            assert(sv[i][j] == scaled);
            lemma_residue_congruent(ev, q);
            lemma_residue_congruent(mv, q);
            lemma_residue_congruent(d, q);
            lemma_residue_congruent(di * (mv % q), q);
            lemma_congruent_mul(di, mv % q, d, mv, q);
            lemma_congruent_add(ev % q, scaled, ev, d * mv, q);
            assert(1 * (ev % q) + 1 * scaled == ev % q + scaled);
        }
    }
    assert(sum =~= target);
    // the shape of the limbs
    lemma_sub_rows_is_lincomb(fe, p, moduli);
    lemma_lincomb_rows_shape(fe, p, 1, -1, moduli, n);
    lemma_add_rows_is_lincomb(sub_rows(fe, p, moduli), m_rows, moduli);
    lemma_lincomb_rows_shape(sub_rows(fe, p, moduli), m_rows, 1, 1, moduli, n);
}

/// Rows times residues have the shape of the ring.
pub proof fn lemma_lincomb_shape_scaled(x: Seq<Seq<u64>>, c: Seq<u64>, moduli: Seq<u64>, n: nat)
    requires
        valid_ring(moduli, n),
        well_shaped(x, moduli, n),
    ensures
        well_shaped(scaled_by(x, c, moduli), moduli, n),
{
    let l = scaled_by(x, c, moduli);
    assert forall|i: int| 0 <= i < l.len() implies (#[trigger] l[i]).len() == n && is_reduced(
        l[i],
        moduli[i] as int,
    ) by {
        lemma_valid_ring(moduli, n, i);
        crate::ntt_linear::lemma_lincomb_reduced(x[i], x[i], c[i] as int, 0, moduli[i] as int);
    }
}

/// The scaled message of a plaintext is its coefficient times `Q mod t`,
/// modulo `t`.
pub proof fn lemma_message_congruent(coefficients: Seq<u64>, q_mod_t: int, t: int, j: int)
    requires
        t > 0,
        0 <= j < coefficients.len(),
    ensures
        congruent(
            message_values(coefficients, q_mod_t, t)[j],
            q_mod_t * (coefficients[j] as int),
            t,
        ),
{
    lemma_residue_congruent((coefficients[j] as int) * q_mod_t, t);
    assert((coefficients[j] as int) * q_mod_t == q_mod_t * (coefficients[j] as int))
        by (nonlinear_arith);
}

/// Decryption undoes encryption: a fresh encryption of a plaintext whose
/// noise is within the budget decrypts to the coefficients of the
/// plaintext.
pub proof fn lemma_decrypt_encrypt(
    sk: &SecretKey,
    pt: &Plaintext,
    ct: &Ciphertext,
    seed: Seq<u8>,
    words: Seq<u64>,
)
    requires
        sk.wf(),
        pt.wf(),
        sk.parameters().same_as(pt.parameters()),
        ct.limbs() == sk.encryption(pt, seed, words),
        sk.parameters().plaintext_modulus() < sk.parameters().moduli()@[0],
        within_budget(
            noise_values(
                words,
                sk.parameters().variance() as nat,
                sk.parameters().degree() as nat,
            ),
            message_values(
                pt.coefficients(),
                sk.parameters().q_mod_t() as int,
                sk.parameters().plaintext_modulus() as int,
            ),
            sk.parameters().plaintext_modulus() as int,
            product_of(sk.parameters().moduli()@) as int,
        ),
    ensures
        sk.decryption(ct) == pt.coefficients(),
{
    let par = sk.parameters();
    let moduli = par.moduli()@;
    let n = par.degree() as nat;
    let t = par.plaintext_modulus();
    let ti = t as int;
    let qmt = par.q_mod_t() as int;
    let e = noise_values(words, par.variance() as nat, n);
    let m = message_values(pt.coefficients(), qmt, ti);
    let mu = Seq::new(n, |j: int| pt.coefficients()[j] as int);
    lemma_fresh_carries(sk, pt, seed, words);
    assert forall|j: int| 0 <= j < n implies congruent(
        #[trigger] m[j],
        ((product_of(moduli) as int) % ti) * mu[j],
        ti,
    ) by {
        lemma_message_congruent(pt.coefficients(), qmt, ti, j);
    }
    lemma_decrypt_carried(
        phase(ct.limbs(), sk.secret().rows(), moduli, 0),
        e,
        m,
        mu,
        t,
        moduli,
        n,
    );
    assert forall|j: int| 0 <= j < n implies (mu[j] % ti) as u64 == pt.coefficients()[j] by {
        lemma_small_mod(pt.coefficients()[j] as nat, t as nat);
    }
    assert(sk.decryption(ct) =~= pt.coefficients());
}

/// The sum of two fresh encryptions decrypts to the sum of the
/// coefficients of their plaintexts modulo `t`, where the sum of the noises
/// is within the budget.
pub proof fn lemma_sum_decrypts(
    sk: &SecretKey,
    pt_a: &Plaintext,
    pt_b: &Plaintext,
    ct: &Ciphertext,
    seed_a: Seq<u8>,
    words_a: Seq<u64>,
    seed_b: Seq<u8>,
    words_b: Seq<u64>,
)
    requires
        sk.wf(),
        pt_a.wf(),
        pt_b.wf(),
        sk.parameters().same_as(pt_a.parameters()),
        sk.parameters().same_as(pt_b.parameters()),
        ct.limbs() == add_limbs(
            sk.encryption(pt_a, seed_a, words_a),
            sk.encryption(pt_b, seed_b, words_b),
            sk.parameters().moduli()@,
        ),
        sk.parameters().plaintext_modulus() < sk.parameters().moduli()@[0],
        within_budget(
            combined_noise(sk, words_a, words_b, 1, 1),
            combined_message(sk, pt_a, pt_b, 1, 1),
            sk.parameters().plaintext_modulus() as int,
            product_of(sk.parameters().moduli()@) as int,
        ),
    ensures
        sk.decryption(ct) == add_seq(
            pt_a.coefficients(),
            pt_b.coefficients(),
            sk.parameters().plaintext_modulus() as int,
        ),
{
    let moduli = sk.parameters().moduli()@;
    let ti = sk.parameters().plaintext_modulus() as int;
    let la = sk.encryption(pt_a, seed_a, words_a);
    let lb = sk.encryption(pt_b, seed_b, words_b);
    lemma_fresh_carries(sk, pt_a, seed_a, words_a);
    lemma_fresh_carries(sk, pt_b, seed_b, words_b);
    assert(add_limbs(la, lb, moduli) =~= comb_limbs(la, lb, 1, 1, moduli)) by {
        lemma_add_rows_is_lincomb(la[0], lb[0], moduli);
        lemma_add_rows_is_lincomb(la[1], lb[1], moduli);
    }
    lemma_combination_decrypts(sk, pt_a, pt_b, ct, seed_a, words_a, seed_b, words_b, 1, 1);
    let got = sk.decryption(ct);
    let want = add_seq(pt_a.coefficients(), pt_b.coefficients(), ti);
    assert forall|j: int| 0 <= j < got.len() implies got[j] == want[j] by {
        assert(1 * (pt_a.coefficients()[j] as int) + 1 * (pt_b.coefficients()[j] as int)
            == pt_a.coefficients()[j] + pt_b.coefficients()[j]);
    }
    assert(got =~= want);
}

/// The difference of two fresh encryptions decrypts to the difference of
/// the coefficients of their plaintexts modulo `t`, where the difference of
/// the noises is within the budget.
pub proof fn lemma_difference_decrypts(
    sk: &SecretKey,
    pt_a: &Plaintext,
    pt_b: &Plaintext,
    ct: &Ciphertext,
    seed_a: Seq<u8>,
    words_a: Seq<u64>,
    seed_b: Seq<u8>,
    words_b: Seq<u64>,
)
    requires
        sk.wf(),
        pt_a.wf(),
        pt_b.wf(),
        sk.parameters().same_as(pt_a.parameters()),
        sk.parameters().same_as(pt_b.parameters()),
        ct.limbs() == sub_limbs(
            sk.encryption(pt_a, seed_a, words_a),
            sk.encryption(pt_b, seed_b, words_b),
            sk.parameters().moduli()@,
        ),
        sk.parameters().plaintext_modulus() < sk.parameters().moduli()@[0],
        within_budget(
            combined_noise(sk, words_a, words_b, 1, -1),
            combined_message(sk, pt_a, pt_b, 1, -1),
            sk.parameters().plaintext_modulus() as int,
            product_of(sk.parameters().moduli()@) as int,
        ),
    ensures
        sk.decryption(ct) == sub_seq(
            pt_a.coefficients(),
            pt_b.coefficients(),
            sk.parameters().plaintext_modulus() as int,
        ),
{
    let moduli = sk.parameters().moduli()@;
    let ti = sk.parameters().plaintext_modulus() as int;
    let la = sk.encryption(pt_a, seed_a, words_a);
    let lb = sk.encryption(pt_b, seed_b, words_b);
    lemma_fresh_carries(sk, pt_a, seed_a, words_a);
    lemma_fresh_carries(sk, pt_b, seed_b, words_b);
    assert(sub_limbs(la, lb, moduli) =~= comb_limbs(la, lb, 1, -1, moduli)) by {
        lemma_sub_rows_is_lincomb(la[0], lb[0], moduli);
        lemma_sub_rows_is_lincomb(la[1], lb[1], moduli);
    }
    lemma_combination_decrypts(sk, pt_a, pt_b, ct, seed_a, words_a, seed_b, words_b, 1, -1);
    let got = sk.decryption(ct);
    let want = sub_seq(pt_a.coefficients(), pt_b.coefficients(), ti);
    assert forall|j: int| 0 <= j < got.len() implies got[j] == want[j] by {
        assert(1 * (pt_a.coefficients()[j] as int) + (-1) * (pt_b.coefficients()[j] as int)
            == pt_a.coefficients()[j] - pt_b.coefficients()[j]);
    }
    assert(got =~= want);
}

/// The opposite of a fresh encryption decrypts to the opposite of the
/// coefficients of its plaintext modulo `t`, where the noise is within the
/// budget.
pub proof fn lemma_opposite_decrypts(
    sk: &SecretKey,
    pt: &Plaintext,
    ct: &Ciphertext,
    seed: Seq<u8>,
    words: Seq<u64>,
)
    requires
        sk.wf(),
        pt.wf(),
        sk.parameters().same_as(pt.parameters()),
        ct.limbs() == neg_limbs(sk.encryption(pt, seed, words), sk.parameters().moduli()@),
        sk.parameters().plaintext_modulus() < sk.parameters().moduli()@[0],
        within_budget(
            combined_noise(sk, words, words, -1, 0),
            combined_message(sk, pt, pt, -1, 0),
            sk.parameters().plaintext_modulus() as int,
            product_of(sk.parameters().moduli()@) as int,
        ),
    ensures
        sk.decryption(ct) == neg_seq(
            pt.coefficients(),
            sk.parameters().plaintext_modulus() as int,
        ),
{
    let moduli = sk.parameters().moduli()@;
    let ti = sk.parameters().plaintext_modulus() as int;
    let l = sk.encryption(pt, seed, words);
    lemma_fresh_carries(sk, pt, seed, words);
    assert(neg_limbs(l, moduli) =~= comb_limbs(l, l, -1, 0, moduli)) by {
        lemma_neg_rows_is_lincomb(l[0], moduli);
        lemma_neg_rows_is_lincomb(l[1], moduli);
    }
    lemma_combination_decrypts(sk, pt, pt, ct, seed, words, seed, words, -1, 0);
    let got = sk.decryption(ct);
    let want = neg_seq(pt.coefficients(), ti);
    assert forall|j: int| 0 <= j < got.len() implies got[j] == want[j] by {
        assert((-1) * (pt.coefficients()[j] as int) + 0 * (pt.coefficients()[j] as int) == -(
        pt.coefficients()[j] as int));
    }
    assert(got =~= want);
}

/// The combination, with the coefficients `alpha` and `beta`, of the
/// noises of two lists of words.
pub open spec fn combined_noise(
    sk: &SecretKey,
    words_a: Seq<u64>,
    words_b: Seq<u64>,
    alpha: int,
    beta: int,
) -> Seq<int> {
    let n = sk.parameters().degree() as nat;
    let variance = sk.parameters().variance() as nat;
    Seq::new(
        n,
        |j: int|
            alpha * noise_values(words_a, variance, n)[j] + beta * noise_values(
                words_b,
                variance,
                n,
            )[j],
    )
}

/// The combination, with the coefficients `alpha` and `beta`, of the
/// scaled messages of two plaintexts.
pub open spec fn combined_message(
    sk: &SecretKey,
    pt_a: &Plaintext,
    pt_b: &Plaintext,
    alpha: int,
    beta: int,
) -> Seq<int> {
    let n = sk.parameters().degree() as nat;
    let qmt = sk.parameters().q_mod_t() as int;
    let t = sk.parameters().plaintext_modulus() as int;
    Seq::new(
        n,
        |j: int|
            alpha * message_values(pt_a.coefficients(), qmt, t)[j] + beta * message_values(
                pt_b.coefficients(),
                qmt,
                t,
            )[j],
    )
}

/// A combination of two fresh encryptions decrypts to the combination of
/// the coefficients of their plaintexts modulo `t`, where the combination
/// of the noises is within the budget.
pub proof fn lemma_combination_decrypts(
    sk: &SecretKey,
    pt_a: &Plaintext,
    pt_b: &Plaintext,
    ct: &Ciphertext,
    seed_a: Seq<u8>,
    words_a: Seq<u64>,
    seed_b: Seq<u8>,
    words_b: Seq<u64>,
    alpha: int,
    beta: int,
)
    requires
        sk.wf(),
        pt_a.wf(),
        pt_b.wf(),
        sk.parameters().same_as(pt_a.parameters()),
        sk.parameters().same_as(pt_b.parameters()),
        ct.limbs() == comb_limbs(
            sk.encryption(pt_a, seed_a, words_a),
            sk.encryption(pt_b, seed_b, words_b),
            alpha,
            beta,
            sk.parameters().moduli()@,
        ),
        sk.parameters().plaintext_modulus() < sk.parameters().moduli()@[0],
        within_budget(
            combined_noise(sk, words_a, words_b, alpha, beta),
            combined_message(sk, pt_a, pt_b, alpha, beta),
            sk.parameters().plaintext_modulus() as int,
            product_of(sk.parameters().moduli()@) as int,
        ),
    ensures
        sk.decryption(ct) == Seq::new(
            sk.parameters().degree() as nat,
            |j: int|
                ((alpha * (pt_a.coefficients()[j] as int) + beta * (pt_b.coefficients()[j] as int))
                    % (sk.parameters().plaintext_modulus() as int)) as u64,
        ),
{
    let par = sk.parameters();
    let moduli = par.moduli()@;
    let n = par.degree() as nat;
    let t = par.plaintext_modulus();
    let ti = t as int;
    let qmt = par.q_mod_t() as int;
    let variance = par.variance() as nat;
    let s = sk.secret().rows();
    let la = sk.encryption(pt_a, seed_a, words_a);
    let lb = sk.encryption(pt_b, seed_b, words_b);
    let ea = noise_values(words_a, variance, n);
    let eb = noise_values(words_b, variance, n);
    let ma = message_values(pt_a.coefficients(), qmt, ti);
    let mb = message_values(pt_b.coefficients(), qmt, ti);
    lemma_fresh_carries(sk, pt_a, seed_a, words_a);
    lemma_fresh_carries(sk, pt_b, seed_b, words_b);
    lemma_combination_carries(la, lb, s, ea, ma, eb, mb, alpha, beta, t, moduli, n);
    let e = Seq::new(n, |j: int| alpha * ea[j] + beta * eb[j]);
    let m = Seq::new(n, |j: int| alpha * ma[j] + beta * mb[j]);
    let mu = Seq::new(
        n,
        |j: int| alpha * (pt_a.coefficients()[j] as int) + beta * (pt_b.coefficients()[j] as int),
    );
    assert(e =~= combined_noise(sk, words_a, words_b, alpha, beta));
    assert(m =~= combined_message(sk, pt_a, pt_b, alpha, beta));
    assert forall|j: int| 0 <= j < n implies congruent(
        #[trigger] m[j],
        ((product_of(moduli) as int) % ti) * mu[j],
        ti,
    ) by {
        lemma_message_congruent(pt_a.coefficients(), qmt, ti, j);
        lemma_message_congruent(pt_b.coefficients(), qmt, ti, j);
        let ca = pt_a.coefficients()[j] as int;
        let cb = pt_b.coefficients()[j] as int;
        lemma_congruent_mul(alpha, ma[j], alpha, qmt * ca, ti);
        lemma_congruent_mul(beta, mb[j], beta, qmt * cb, ti);
        lemma_congruent_add(alpha * ma[j], beta * mb[j], alpha * (qmt * ca), beta * (qmt * cb), ti);
        assert(alpha * (qmt * ca) == qmt * (alpha * ca)) by (nonlinear_arith);
        assert(beta * (qmt * cb) == qmt * (beta * cb)) by (nonlinear_arith);
        assert(qmt * (alpha * ca + beta * cb) == qmt * (alpha * ca) + qmt * (beta * cb))
            by (nonlinear_arith);
    }
    lemma_decrypt_carried(phase(ct.limbs(), s, moduli, 0), e, m, mu, t, moduli, n);
}

/// A sufficient budget: where the ciphertext modulus is at least
/// `4 t (2 variance + 1)`, the sum, the difference and the opposite of
/// fresh encryptions, and a fresh encryption itself, are within the budget.
pub proof fn lemma_fresh_budget(
    sk: &SecretKey,
    pt_a: &Plaintext,
    pt_b: &Plaintext,
    words_a: Seq<u64>,
    words_b: Seq<u64>,
    alpha: int,
    beta: int,
)
    requires
        sk.wf(),
        pt_a.wf(),
        pt_b.wf(),
        sk.parameters().same_as(pt_a.parameters()),
        sk.parameters().same_as(pt_b.parameters()),
        -1 <= alpha <= 1,
        -1 <= beta <= 1,
        4 * sk.parameters().plaintext_modulus() * (2 * sk.parameters().variance() + 1)
            <= product_of(sk.parameters().moduli()@),
    ensures
        within_budget(
            combined_noise(sk, words_a, words_b, alpha, beta),
            combined_message(sk, pt_a, pt_b, alpha, beta),
            sk.parameters().plaintext_modulus() as int,
            product_of(sk.parameters().moduli()@) as int,
        ),
{
    let par = sk.parameters();
    let n = par.degree() as nat;
    let t = par.plaintext_modulus() as int;
    let v = par.variance() as int;
    let q = product_of(par.moduli()@) as int;
    let qmt = par.q_mod_t() as int;
    let e = combined_noise(sk, words_a, words_b, alpha, beta);
    let m = combined_message(sk, pt_a, pt_b, alpha, beta);
    assert forall|j: int| 0 <= j < e.len() implies -q <= 2 * (t * #[trigger] e[j] - m[j]) < q by {
        lemma_noise_bound(words_a, v as nat, n, j);
        lemma_noise_bound(words_b, v as nat, n, j);
        let ea = noise_values(words_a, v as nat, n)[j];
        let eb = noise_values(words_b, v as nat, n)[j];
        let ma = message_values(pt_a.coefficients(), qmt, t)[j];
        let mb = message_values(pt_b.coefficients(), qmt, t)[j];
        lemma_mod_bound((pt_a.coefficients()[j] as int) * qmt, t);
        lemma_mod_bound((pt_b.coefficients()[j] as int) * qmt, t);
        assert(-(2 * v) <= alpha * ea <= 2 * v) by (nonlinear_arith)
            requires
                -1 <= alpha <= 1,
                -(2 * v) <= ea <= 2 * v,
        ;
        assert(-(2 * v) <= beta * eb <= 2 * v) by (nonlinear_arith)
            requires
                -1 <= beta <= 1,
                -(2 * v) <= eb <= 2 * v,
        ;
        assert(-t < alpha * ma < t) by (nonlinear_arith)
            requires
                -1 <= alpha <= 1,
                0 <= ma < t,
        ;
        assert(-t < beta * mb < t) by (nonlinear_arith)
            requires
                -1 <= beta <= 1,
                0 <= mb < t,
        ;
        let ev = e[j];
        assert(-(4 * v) <= ev <= 4 * v);
        assert(-(t * (4 * v)) <= t * ev <= t * (4 * v)) by (nonlinear_arith)
            requires
                -(4 * v) <= ev <= 4 * v,
                t > 0,
        ;
        assert(4 * t * (2 * v + 1) == 2 * (t * (4 * v)) + 4 * t) by (nonlinear_arith);
    }
}

} // verus!

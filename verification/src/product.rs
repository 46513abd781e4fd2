//! The product of a ciphertext by a plaintext decrypts to the product of
//! the plaintexts: the negacyclic product of their coefficients, which in
//! the batched encoding is the product slot by slot.

use crate::batching::{
    encoding_ready, lemma_encoded_shape, lemma_gather_scatter, lemma_parameters_ready,
};
use crate::ciphertext::{scale_limbs, Ciphertext};
use crate::congruence::{
    congruent, lemma_congruent_add, lemma_congruent_mul, lemma_residue_congruent,
};
use crate::convolution::{
    lemma_convolution, lemma_sum_congruent, lemma_sum_linear, negacyclic_product, sum, wrap_terms,
};
use crate::correctness::{
    delta_value, lemma_decrypt_carried, lemma_fresh_carries, lemma_material_shape,
    lemma_message_congruent, lemma_noise_bound, lemma_noisy_rows_shape, message_values,
    noise_values, noisy_rows, within_budget,
};
use crate::integer_ring::lemma_sum_bounded;
use crate::ntt::lemma_forward_backward;
use crate::plaintext::{
    decoded_values, encoded_values, gathered, lemma_scattered_shape, padded_values, scattered,
    Encoding, Plaintext,
};
use crate::rns::product_of;
use crate::rows_algebra::{lemma_forward_rows_shape, lemma_valid_ring};
use crate::rq::{
    add_rows, forward_rows, mul_rows, valid_ring, value_rows, well_shaped,
};
use crate::secret_key::{phase, SecretKey};
use crate::zq::{is_reduced, mul_seq};
use vstd::arithmetic::div_mod::*;
use vstd::prelude::*;

verus! {

/// The terms of the coefficient `k` of the negacyclic product of the
/// integers `x` by the residues `y`.
pub open spec fn signed_terms(x: Seq<int>, y: Seq<u64>, k: int) -> spec_fn(int) -> int {
    |i: int|
        if i <= k {
            x[i] * (y[k - i] as int)
        } else {
            -(x[i] * (y[k - i + x.len()] as int))
        }
}

/// The negacyclic product of the integers `x` by the residues `y`, over
/// the integers.
pub open spec fn signed_product(x: Seq<int>, y: Seq<u64>) -> Seq<int> {
    Seq::new(x.len(), |k: int| sum(signed_terms(x, y, k), x.len()))
}

/// The integers that residues are.
pub open spec fn as_integers(x: Seq<u64>) -> Seq<int> {
    Seq::new(x.len(), |j: int| x[j] as int)
}

/// The phase of a ciphertext of two limbs multiplied by the rows `b` is
/// the phase of the ciphertext multiplied by `b`.
pub proof fn lemma_phase_scaled(
    l: Seq<Seq<Seq<u64>>>,
    b: Seq<Seq<u64>>,
    s: Seq<Seq<u64>>,
    moduli: Seq<u64>,
    n: nat,
)
    requires
        valid_ring(moduli, n),
        l.len() == 2,
        well_shaped(l[0], moduli, n),
        well_shaped(l[1], moduli, n),
        well_shaped(b, moduli, n),
        well_shaped(s, moduli, n),
    ensures
        phase(scale_limbs(l, b, moduli), s, moduli, 0) == mul_rows(
            phase(l, s, moduli, 0),
            b,
            moduli,
        ),
{
    reveal_with_fuel(phase, 3);
    let sl = scale_limbs(l, b, moduli);
    let left = phase(sl, s, moduli, 0);
    let pl = phase(l, s, moduli, 0);
    let right = mul_rows(pl, b, moduli);
    assert(left == add_rows(mul_rows(sl[1], s, moduli), sl[0], moduli));
    assert(pl == add_rows(mul_rows(l[1], s, moduli), l[0], moduli));
    assert forall|i: int| 0 <= i < moduli.len() implies left[i] =~= right[i] by {
        lemma_valid_ring(moduli, n, i);
        let q = moduli[i] as int;
        assert forall|j: int| 0 <= j < n implies left[i][j] == right[i][j] by {
            let l0 = l[0][i][j] as int;
            let l1 = l[1][i][j] as int;
            let bv = b[i][j] as int;
            let sv = s[i][j] as int;
            let c0 = (l0 * bv) % q;
            let c1 = (l1 * bv) % q;
            lemma_mod_bound(l0 * bv, q);
            lemma_mod_bound(l1 * bv, q);
            assert(sl[0][i][j] == c0);
            assert(sl[1][i][j] == c1);
            let pv = ((l1 * sv) % q + l0) % q;
            lemma_mod_bound((l1 * sv) % q + l0, q);
            assert(pl[i][j] == pv);
            // left: (c1 sv) % q + c0  ==  l1 bv sv + l0 bv
            lemma_residue_congruent(l0 * bv, q);
            lemma_residue_congruent(l1 * bv, q);
            lemma_residue_congruent(c1 * sv, q);
            lemma_congruent_mul(c1, sv, l1 * bv, sv, q);
            lemma_congruent_add((c1 * sv) % q, c0, (l1 * bv) * sv, l0 * bv, q);
            // right: pv bv == (l1 sv + l0) bv
            lemma_residue_congruent(l1 * sv, q);
            lemma_residue_congruent((l1 * sv) % q + l0, q);
            lemma_congruent_add((l1 * sv) % q, l0, l1 * sv, l0, q);
            lemma_congruent_mul(pv, bv, l1 * sv + l0, bv, q);
            assert((l1 * bv) * sv == (l1 * sv) * bv) by (nonlinear_arith);
            assert((l1 * sv + l0) * bv == (l1 * sv) * bv + l0 * bv) by (nonlinear_arith);
        }
    }
    assert(left =~= right);
}

/// The negacyclic product of the rows of `e + delta m` by the residues of
/// `b` is the rows of `e' + delta m'`, where `e'` and `m'` are the
/// negacyclic products of `e` and of `m` by `b` over the integers.
pub proof fn lemma_noisy_product(
    e: Seq<int>,
    m: Seq<int>,
    b: Seq<u64>,
    delta: int,
    q: int,
    n: nat,
    k: int,
)
    requires
        2 <= q < 0x4000_0000_0000_0000,
        e.len() == n,
        m.len() == n,
        b.len() == n,
        0 <= k < n,
    ensures
        negacyclic_product(
            Seq::new(n, |j: int| ((e[j] + delta * m[j]) % q) as u64),
            Seq::new(n, |j: int| ((b[j] as int) % q) as u64),
            q,
        )[k] == ((signed_product(e, b)[k] + delta * signed_product(m, b)[k]) % q) as u64,
{
    let r = Seq::new(n, |j: int| ((e[j] + delta * m[j]) % q) as u64);
    let br = Seq::new(n, |j: int| ((b[j] as int) % q) as u64);
    let f = wrap_terms(r, br, -1, k);
    let fe = signed_terms(e, b, k);
    let fm = signed_terms(m, b, k);
    let g = |i: int| signed_terms(e, b, k)(i) + delta * signed_terms(m, b, k)(i);
    assert forall|i: int| 0 <= i < n implies congruent(#[trigger] f(i), g(i), q) by {
        let v = e[i] + delta * m[i];
        lemma_mod_bound(v, q);
        lemma_residue_congruent(v, q);
        assert(r[i] == v % q);
        if i <= k {
            let y = b[k - i] as int;
            lemma_mod_bound(y, q);
            lemma_residue_congruent(y, q);
            assert(br[k - i] == y % q);
            lemma_congruent_mul(v % q, y % q, v, y, q);
            assert(v * y == e[i] * y + delta * (m[i] * y)) by (nonlinear_arith)
                requires
                    v == e[i] + delta * m[i],
            ;
        } else {
            let y = b[k - i + n] as int;
            lemma_mod_bound(y, q);
            lemma_residue_congruent(y, q);
            assert(br[k - i + n] == y % q);
            lemma_congruent_mul(v % q, y % q, v, y, q);
            lemma_congruent_mul(-1, (v % q) * (y % q), -1, v * y, q);
            assert((-1) * (v * y) == -(e[i] * y) + delta * (-(m[i] * y))) by (nonlinear_arith)
                requires
                    v == e[i] + delta * m[i],
            ;
        }
    }
    lemma_sum_congruent(f, g, n, q);
    lemma_sum_linear(fe, fm, 1, delta, g, n);
    assert(1 * sum(fe, n) == sum(fe, n));
    lemma_mod_bound(sum(f, n), q);
}

/// The scaled messages of a product: where each scaled message is its
/// coefficient times `c` modulo `t`, the scaled message of the product is
/// the coefficient of the product times `c` modulo `t`.
pub proof fn lemma_message_product(m: Seq<int>, a: Seq<int>, b: Seq<u64>, c: int, t: int, k: int)
    requires
        t > 0,
        m.len() == a.len(),
        b.len() == a.len(),
        0 <= k < a.len(),
        forall|j: int| 0 <= j < a.len() ==> congruent(#[trigger] m[j], c * a[j], t),
    ensures
        congruent(signed_product(m, b)[k], c * signed_product(a, b)[k], t),
{
    let n = a.len();
    let fm = signed_terms(m, b, k);
    let fa = signed_terms(a, b, k);
    let g = |i: int| c * signed_terms(a, b, k)(i) + 0 * signed_terms(a, b, k)(i);
    assert forall|i: int| 0 <= i < n implies congruent(#[trigger] fm(i), g(i), t) by {
        assert(congruent(m[i], c * a[i], t));
        if i <= k {
            let y = b[k - i] as int;
            lemma_congruent_mul(m[i], y, c * a[i], y, t);
            assert((c * a[i]) * y == c * (a[i] * y)) by (nonlinear_arith);
        } else {
            let y = b[k - i + n] as int;
            lemma_congruent_mul(m[i], y, c * a[i], y, t);
            lemma_congruent_mul(-1, m[i] * y, -1, (c * a[i]) * y, t);
            assert((-1) * ((c * a[i]) * y) == c * (-(a[i] * y))) by (nonlinear_arith);
            assert((-1) * (m[i] * y) == -(m[i] * y));
        }
    }
    lemma_sum_congruent(fm, g, n, t);
    lemma_sum_linear(fa, fa, c, 0, g, n);
    assert(0 * sum(fa, n) == 0);
}

/// The negacyclic product of residues modulo `t` is the negacyclic
/// product of the integers they are, reduced.
pub proof fn lemma_signed_product_residues(a: Seq<u64>, b: Seq<u64>, t: int, k: int)
    requires
        0 < t < 0x4000_0000_0000_0000,
        a.len() == b.len(),
        0 <= k < a.len(),
    ensures
        negacyclic_product(a, b, t)[k] == (signed_product(as_integers(a), b)[k] % t) as u64,
{
    let n = a.len();
    let f = wrap_terms(a, b, -1, k);
    let g = signed_terms(as_integers(a), b, k);
    assert forall|i: int| 0 <= i < n implies congruent(#[trigger] f(i), g(i), t) by {
        if i > k {
            let z = (a[i] as int) * (b[k - i + n] as int);
            assert((-1) * z == -z);
        }
    }
    lemma_sum_congruent(f, g, n, t);
    lemma_mod_bound(sum(f, n), t);
}

/// The product of a fresh encryption by a plaintext decrypts to the
/// negacyclic product of the coefficients of the two plaintexts modulo
/// `t`, where the noise of the product is within the budget.
pub proof fn lemma_product_decrypts(
    sk: &SecretKey,
    pt_a: &Plaintext,
    pt_b: &Plaintext,
    ct: &Ciphertext,
    seed: Seq<u8>,
    words: Seq<u64>,
)
    requires
        sk.wf(),
        pt_a.wf(),
        pt_b.wf(),
        sk.parameters().same_as(pt_a.parameters()),
        sk.parameters().same_as(pt_b.parameters()),
        ct.limbs() == scale_limbs(
            sk.encryption(pt_a, seed, words),
            pt_b.poly_ntt().rows(),
            sk.parameters().moduli()@,
        ),
        sk.parameters().plaintext_modulus() < sk.parameters().moduli()@[0],
        within_budget(
            signed_product(
                noise_values(
                    words,
                    sk.parameters().variance() as nat,
                    sk.parameters().degree() as nat,
                ),
                pt_b.coefficients(),
            ),
            signed_product(
                message_values(
                    pt_a.coefficients(),
                    sk.parameters().q_mod_t() as int,
                    sk.parameters().plaintext_modulus() as int,
                ),
                pt_b.coefficients(),
            ),
            sk.parameters().plaintext_modulus() as int,
            product_of(sk.parameters().moduli()@) as int,
        ),
    ensures
        sk.decryption(ct) == negacyclic_product(
            pt_a.coefficients(),
            pt_b.coefficients(),
            sk.parameters().plaintext_modulus() as int,
        ),
{
    let par = sk.parameters();
    let moduli = par.moduli()@;
    let n = par.degree() as nat;
    let t = par.plaintext_modulus();
    let ti = t as int;
    let qmt = par.q_mod_t() as int;
    let s = sk.secret().rows();
    let d = delta_value(t, moduli);
    let l = sk.encryption(pt_a, seed, words);
    let e = noise_values(words, par.variance() as nat, n);
    let m = message_values(pt_a.coefficients(), qmt, ti);
    let b = pt_b.coefficients();
    let a = pt_a.coefficients();
    assert(valid_ring(moduli, n));
    lemma_fresh_carries(sk, pt_a, seed, words);
    // the transform of the second plaintext
    let bv = value_rows(b, moduli, n);
    lemma_material_shape(seed, words, par.variance() as nat, b, moduli, n);
    let pb = pt_b.poly_ntt().rows();
    assert(pb == forward_rows(bv, moduli, n));
    lemma_forward_rows_shape(bv, moduli, n);
    // the phase of the product
    lemma_phase_scaled(l, pb, s, moduli, n);
    let r = noisy_rows(e, m, d, moduli, n);
    lemma_noisy_rows_shape(e, m, d, moduli, n);
    let e2 = signed_product(e, b);
    let m2 = signed_product(m, b);
    let r2 = noisy_rows(e2, m2, d, moduli, n);
    let product = mul_rows(forward_rows(r, moduli, n), pb, moduli);
    assert forall|i: int| 0 <= i < moduli.len() implies product[i] == forward_rows(
        r2,
        moduli,
        n,
    )[i] by {
        lemma_valid_ring(moduli, n, i);
        let q = moduli[i] as int;
        lemma_convolution(r[i], bv[i], q, n);
        assert(negacyclic_product(r[i], bv[i], q) =~= r2[i]) by {
            assert forall|k: int| 0 <= k < n implies negacyclic_product(r[i], bv[i], q)[k]
                == r2[i][k] by {
                assert(r[i] =~= Seq::new(n, |j: int| ((e[j] + d * m[j]) % q) as u64));
                assert(bv[i] =~= Seq::new(n, |j: int| ((b[j] as int) % q) as u64));
                lemma_noisy_product(e, m, b, d, q, n, k);
            }
        }
    }
    assert(product =~= forward_rows(r2, moduli, n));
    // decryption
    let mu = signed_product(as_integers(a), b);
    assert forall|k: int| 0 <= k < n implies congruent(
        #[trigger] m2[k],
        ((product_of(moduli) as int) % ti) * mu[k],
        ti,
    ) by {
        assert forall|j: int| 0 <= j < n implies congruent(
            #[trigger] m[j],
            qmt * as_integers(a)[j],
            ti,
        ) by {
            lemma_message_congruent(a, qmt, ti, j);
        }
        lemma_message_product(m, as_integers(a), b, qmt, ti, k);
    }
    lemma_decrypt_carried(phase(ct.limbs(), s, moduli, 0), e2, m2, mu, t, moduli, n);
    let got = sk.decryption(ct);
    let want = negacyclic_product(a, b, ti);
    assert forall|k: int| 0 <= k < n implies got[k] == want[k] by {
        lemma_signed_product_residues(a, b, ti, k);
    }
    assert(got =~= want);
}

/// What the product of two plaintexts decodes to: the negacyclic product
/// of the values in the coefficient encoding, their product slot by slot
/// in the batched one.
pub open spec fn product_values(a: Seq<u64>, b: Seq<u64>, encoding: Encoding, t: int, n: nat) -> Seq<
    u64,
> {
    match encoding {
        Encoding::Poly => negacyclic_product(padded_values(a, t, n), padded_values(b, t, n), t),
        Encoding::Simd => mul_seq(padded_values(a, t, n), padded_values(b, t, n), t),
    }
}

/// The negacyclic product of the coefficients that hold values decodes to
/// the product of the values.
pub proof fn lemma_decode_product(
    a: Seq<u64>,
    b: Seq<u64>,
    encoding: Encoding,
    map: Seq<usize>,
    t: int,
    n: nat,
)
    requires
        encoding_ready(encoding, map, t, n),
        n >= 2,
        a.len() <= n,
        b.len() <= n,
    ensures
        decoded_values(
            negacyclic_product(
                encoded_values(a, encoding, map, t, n),
                encoded_values(b, encoding, map, t, n),
                t,
            ),
            encoding,
            map,
            t,
            n,
        ) == product_values(a, b, encoding, t, n),
{
    match encoding {
        Encoding::Poly => {},
        Encoding::Simd => {
            let ca = encoded_values(a, encoding, map, t, n);
            let cb = encoded_values(b, encoding, map, t, n);
            lemma_encoded_shape(a, encoding, map, t, n);
            lemma_encoded_shape(b, encoding, map, t, n);
            lemma_convolution(ca, cb, t, n);
            let base = Seq::new(n, |j: int| 0u64);
            let sa = scattered(base, a, map, t, a.len());
            let sb = scattered(base, b, map, t, b.len());
            lemma_scattered_shape(base, a, map, t, a.len());
            lemma_scattered_shape(base, b, map, t, b.len());
            lemma_forward_backward(sa, t, n);
            lemma_forward_backward(sb, t, n);
            lemma_gather_scatter(a, map, t, n);
            lemma_gather_scatter(b, map, t, n);
            assert(gathered(mul_seq(sa, sb, t), map) =~= mul_seq(
                gathered(sa, map),
                gathered(sb, map),
                t,
            ));
        },
    }
}

/// The product of a fresh encryption of encoded values by a plaintext of
/// encoded values decrypts and decodes to the product of the values: their
/// negacyclic product in the coefficient encoding, their product slot by
/// slot in the batched one, where the noise of the product is within the
/// budget.
pub proof fn lemma_product_decodes(
    sk: &SecretKey,
    pt_a: &Plaintext,
    pt_b: &Plaintext,
    ct: &Ciphertext,
    seed: Seq<u8>,
    words: Seq<u64>,
    a: Seq<u64>,
    b: Seq<u64>,
    encoding: Encoding,
)
    requires
        sk.wf(),
        pt_a.wf(),
        pt_b.wf(),
        sk.parameters().same_as(pt_a.parameters()),
        sk.parameters().same_as(pt_b.parameters()),
        encoding == Encoding::Simd ==> sk.parameters().spec_op() is Some,
        a.len() <= sk.parameters().degree(),
        b.len() <= sk.parameters().degree(),
        pt_a.coefficients() == encoded_values(
            a,
            encoding,
            sk.parameters().index_map()@,
            sk.parameters().plaintext_modulus() as int,
            sk.parameters().degree() as nat,
        ),
        pt_b.coefficients() == encoded_values(
            b,
            encoding,
            sk.parameters().index_map()@,
            sk.parameters().plaintext_modulus() as int,
            sk.parameters().degree() as nat,
        ),
        ct.limbs() == scale_limbs(
            sk.encryption(pt_a, seed, words),
            pt_b.poly_ntt().rows(),
            sk.parameters().moduli()@,
        ),
        sk.parameters().plaintext_modulus() < sk.parameters().moduli()@[0],
        within_budget(
            signed_product(
                noise_values(
                    words,
                    sk.parameters().variance() as nat,
                    sk.parameters().degree() as nat,
                ),
                pt_b.coefficients(),
            ),
            signed_product(
                message_values(
                    pt_a.coefficients(),
                    sk.parameters().q_mod_t() as int,
                    sk.parameters().plaintext_modulus() as int,
                ),
                pt_b.coefficients(),
            ),
            sk.parameters().plaintext_modulus() as int,
            product_of(sk.parameters().moduli()@) as int,
        ),
    ensures
        decoded_values(
            sk.decryption(ct),
            encoding,
            sk.parameters().index_map()@,
            sk.parameters().plaintext_modulus() as int,
            sk.parameters().degree() as nat,
        ) == product_values(
            a,
            b,
            encoding,
            sk.parameters().plaintext_modulus() as int,
            sk.parameters().degree() as nat,
        ),
{
    let par = sk.parameters();
    lemma_parameters_ready(par, encoding);
    lemma_product_decrypts(sk, pt_a, pt_b, ct, seed, words);
    lemma_decode_product(
        a,
        b,
        encoding,
        par.index_map()@,
        par.plaintext_modulus() as int,
        par.degree() as nat,
    );
}

/// The negacyclic product of integers that are at most `bound` in absolute
/// value by residues below `t` is at most `n bound (t - 1)` in absolute
/// value.
pub proof fn lemma_signed_product_bound(x: Seq<int>, y: Seq<u64>, bound: int, t: int, k: int)
    requires
        x.len() == y.len(),
        0 <= k < x.len(),
        bound >= 0,
        t >= 1,
        forall|i: int| 0 <= i < x.len() ==> -bound <= #[trigger] x[i] <= bound,
        is_reduced(y, t),
    ensures
        -(x.len() * (bound * (t - 1))) <= signed_product(x, y)[k] <= x.len() * (bound * (t - 1)),
{
    let n = x.len();
    let f = signed_terms(x, y, k);
    assert forall|i: int| 0 <= i < n implies -(bound * (t - 1)) <= #[trigger] f(i) <= bound * (t
        - 1) by {
        let xv = x[i];
        assert(-bound <= xv <= bound);
        let yv = if i <= k {
            y[k - i] as int
        } else {
            y[k - i + n] as int
        };
        assert(0 <= yv <= t - 1);
        assert(-(bound * (t - 1)) <= xv * yv <= bound * (t - 1)) by (nonlinear_arith)
            requires
                -bound <= xv <= bound,
                0 <= yv <= t - 1,
        ;
    }
    lemma_sum_bounded(f, n, bound * (t - 1));
}

/// A sufficient budget for a product: where the ciphertext modulus is at
/// least `2 n t^2 (2 variance + 1)`, the product of a fresh encryption by
/// a plaintext is within the budget.
pub proof fn lemma_product_budget(sk: &SecretKey, pt_a: &Plaintext, pt_b: &Plaintext, words: Seq<u64>)
    requires
        sk.wf(),
        pt_a.wf(),
        pt_b.wf(),
        sk.parameters().same_as(pt_a.parameters()),
        sk.parameters().same_as(pt_b.parameters()),
        2 * sk.parameters().degree() * (sk.parameters().plaintext_modulus()
            * sk.parameters().plaintext_modulus()) * (2 * sk.parameters().variance() + 1)
            <= product_of(sk.parameters().moduli()@),
    ensures
        within_budget(
            signed_product(
                noise_values(
                    words,
                    sk.parameters().variance() as nat,
                    sk.parameters().degree() as nat,
                ),
                pt_b.coefficients(),
            ),
            signed_product(
                message_values(
                    pt_a.coefficients(),
                    sk.parameters().q_mod_t() as int,
                    sk.parameters().plaintext_modulus() as int,
                ),
                pt_b.coefficients(),
            ),
            sk.parameters().plaintext_modulus() as int,
            product_of(sk.parameters().moduli()@) as int,
        ),
{
    let par = sk.parameters();
    let n = par.degree() as nat;
    let ni = n as int;
    let t = par.plaintext_modulus() as int;
    let v = par.variance() as int;
    let q = product_of(par.moduli()@) as int;
    let qmt = par.q_mod_t() as int;
    let e = noise_values(words, v as nat, n);
    let m = message_values(pt_a.coefficients(), qmt, t);
    let b = pt_b.coefficients();
    let e2 = signed_product(e, b);
    let m2 = signed_product(m, b);
    assert forall|i: int| 0 <= i < n implies -(2 * v) <= #[trigger] e[i] <= 2 * v by {
        lemma_noise_bound(words, v as nat, n, i);
    }
    assert forall|i: int| 0 <= i < n implies -(t - 1) <= #[trigger] m[i] <= t - 1 by {
        lemma_mod_bound((pt_a.coefficients()[i] as int) * qmt, t);
    }
    assert forall|k: int| 0 <= k < e2.len() implies -q <= 2 * (t * #[trigger] e2[k] - m2[k])
        < q by {
        lemma_signed_product_bound(e, b, 2 * v, t, k);
        lemma_signed_product_bound(m, b, t - 1, t, k);
        let be = ni * ((2 * v) * (t - 1));
        let bm = ni * ((t - 1) * (t - 1));
        let ev = e2[k];
        let mv = m2[k];
        assert(-(t * be) <= t * ev <= t * be) by (nonlinear_arith)
            requires
                -be <= ev <= be,
                t >= 1,
        ;
        assert(2 * (t * be + bm) < 2 * ni * (t * t) * (2 * v + 1)) by {
            assert(t * be == ni * ((2 * v) * ((t - 1) * t))) by (nonlinear_arith)
                requires
                    be == ni * ((2 * v) * (t - 1)),
            ;
            assert((t - 1) * t < t * t && (t - 1) * (t - 1) < t * t) by (nonlinear_arith)
                requires
                    t >= 2,
            ;
            assert((2 * v) * ((t - 1) * t) <= (2 * v) * (t * t)) by (nonlinear_arith)
                requires
                    (t - 1) * t < t * t,
                    v >= 1,
            ;
            assert(ni * ((2 * v) * ((t - 1) * t)) + ni * ((t - 1) * (t - 1)) < ni * ((2 * v) * (t
                * t)) + ni * (t * t)) by (nonlinear_arith)
                requires
                    (2 * v) * ((t - 1) * t) <= (2 * v) * (t * t),
                    (t - 1) * (t - 1) < t * t,
                    ni >= 1,
            ;
            assert(2 * (ni * ((2 * v) * (t * t)) + ni * (t * t)) == 2 * ni * (t * t) * (2 * v + 1))
                by (nonlinear_arith);
        }
    }
}

} // verus!

//! The sum and the differences of a fresh encryption and a plaintext
//! decrypt to those of the coefficients of their plaintexts.

use crate::ciphertext::{neg_limbs, Ciphertext};
use crate::congruence::{
    congruent, lemma_congruent_add, lemma_congruent_mul, lemma_residue_congruent,
};
use crate::correctness::{
    carries, comb_limbs, combined_message, lemma_combination_carries, lemma_decrypt_carried,
    lemma_fresh_carries, lemma_material_shape, lemma_message_congruent, lemma_noise_bound,
    message_values, noise_values, within_budget,
};
use crate::ntt::twiddles;
use crate::ntt_linear::{constant_seq, lemma_ntt_constant};
use crate::plaintext::Plaintext;
use crate::relinearization::{lemma_mul_rows_shape, lemma_zero_rows_shape};
use crate::rns::product_of;
use crate::rows_algebra::{
    lemma_add_rows_is_lincomb, lemma_cancel_rows, lemma_forward_rows_shape,
    lemma_sub_rows_is_lincomb, lemma_valid_ring, lemma_zero_rows_left,
};
use crate::rq::{
    add_rows, forward_rows, mul_rows, seeded_rows, small_rows, sub_rows, valid_ring, value_rows,
    well_shaped, zero_rows,
};
use crate::sampling::ones_in;
use crate::secret_key::{phase, SecretKey};
use crate::zq::{add_seq, scale_seq, sub_seq};
use vstd::arithmetic::div_mod::*;
use vstd::arithmetic::power2::*;
use vstd::prelude::*;

verus! {

/// The limbs that stand for a plaintext in a ciphertext: its scaled
/// polynomial, and zero.
pub open spec fn plain_limbs(pt: &Plaintext) -> Seq<Seq<Seq<u64>>> {
    seq![
        Ciphertext::plain_rows_of(pt),
        zero_rows(pt.parameters().moduli()@.len(), pt.parameters().degree() as nat),
    ]
}

/// The noise of the words, times `alpha`.
pub open spec fn scaled_noise(sk: &SecretKey, words: Seq<u64>, alpha: int) -> Seq<int> {
    let n = sk.parameters().degree() as nat;
    let variance = sk.parameters().variance() as nat;
    Seq::new(n, |j: int| alpha * noise_values(words, variance, n)[j])
}

/// No digit of zero is a one.
pub proof fn lemma_no_ones(n: nat)
    ensures
        ones_in(0, n) == 0,
    decreases n,
{
    if n > 0 {
        lemma_no_ones((n - 1) as nat);
    }
}

/// The limbs of a plaintext carry its message without noise.
pub proof fn lemma_plain_carries(sk: &SecretKey, pt: &Plaintext)
    requires
        sk.wf(),
        pt.wf(),
        sk.parameters().same_as(pt.parameters()),
    ensures
        carries(
            plain_limbs(pt),
            sk.secret().rows(),
            Seq::new(sk.parameters().degree() as nat, |j: int| 0int),
            message_values(
                pt.coefficients(),
                sk.parameters().q_mod_t() as int,
                sk.parameters().plaintext_modulus() as int,
            ),
            sk.parameters().plaintext_modulus(),
            sk.parameters().moduli()@,
            sk.parameters().degree() as nat,
        ),
{
    let par = sk.parameters();
    let m = par.moduli()@;
    let n = par.degree() as nat;
    let v = par.variance() as nat;
    let t = par.plaintext_modulus();
    let ti = t as int;
    let qmt = par.q_mod_t() as int;
    let s = sk.secret().rows();
    assert(valid_ring(m, n));
    let seed = Seq::<u8>::empty();
    let words = Seq::new(n, |i: int| 0u64);
    let enc = sk.encryption(pt, seed, words);
    let a = seeded_rows(seed, m, n);
    let e_rows = small_rows(words, v, m, n);
    let fe = forward_rows(e_rows, m, n);
    let p = mul_rows(a, s, m);
    let rows = Ciphertext::plain_rows_of(pt);
    let zero = zero_rows(m.len(), n);
    let mv = message_values(pt.coefficients(), qmt, ti);
    let none = Seq::new(n, |j: int| 0int);
    lemma_fresh_carries(sk, pt, seed, words);
    // the words give no noise
    lemma_no_ones(2 * v);
    lemma_pow2_pos(2 * v);
    let e = noise_values(words, v, n);
    assert(e =~= none) by {
        assert forall|j: int| 0 <= j < n implies e[j] == 0 by {
            assert(words[j] == 0);
            assert(0nat / pow2(2 * v) == 0) by {
                lemma_div_basics(pow2(2 * v) as int);
            }
        }
    }
    assert forall|i: int| 0 <= i < m.len() implies fe[i] =~= zero[i] by {
        lemma_valid_ring(m, n, i);
        let q = m[i] as int;
        lemma_small_mod(0, q as nat);
        assert(e_rows[i] =~= constant_seq(0, n)) by {
            assert forall|j: int| 0 <= j < n implies e_rows[i][j] == 0 by {
                assert(e[j] == 0);
            }
        }
        lemma_ntt_constant(0, n, twiddles(q, n), 1, q);
    }
    assert(fe =~= zero);
    // the shapes
    let values = scale_seq(pt.coefficients(), qmt, ti);
    lemma_material_shape(seed, words, v, values, m, n);
    lemma_forward_rows_shape(value_rows(values, m, n), m, n);
    assert(pt.parameters().q_mod_t() == par.q_mod_t());
    lemma_mul_rows_shape(forward_rows(value_rows(values, m, n), m, n), par.delta().rows(), m, n);
    assert(well_shaped(rows, m, n));
    lemma_mul_rows_shape(a, s, m, n);
    lemma_zero_rows_shape(m, n);
    // the phase of the encryption is the scaled polynomial
    reveal_with_fuel(phase, 3);
    assert(enc[1] == a);
    assert(enc[0] == add_rows(sub_rows(fe, p, m), rows, m));
    assert(phase(enc, s, m, 0) == add_rows(p, enc[0], m));
    lemma_cancel_rows(p, fe, rows, m, n);
    lemma_zero_rows_left(rows, m, n);
    assert(phase(enc, s, m, 0) == rows);
    // and so is that of the limbs of the plaintext
    let limbs = plain_limbs(pt);
    assert(pt.parameters().moduli()@ == m);
    assert(limbs[1] == zero);
    let zs = mul_rows(zero, s, m);
    assert forall|i: int| 0 <= i < m.len() implies zs[i] =~= zero[i] by {
        lemma_valid_ring(m, n, i);
        assert forall|j: int| 0 <= j < n implies zs[i][j] == 0 by {
            assert(0 * (s[i][j] as int) == 0);
            lemma_small_mod(0, m[i] as nat);
        }
    }
    assert(zs =~= zero);
    assert(phase(limbs, s, m, 0) == add_rows(zs, rows, m));
}

/// The sum and the differences of two limbs and a plaintext are
/// combinations of the limbs and the limbs of the plaintext.
pub proof fn lemma_plain_combinations(
    c: Seq<Seq<Seq<u64>>>,
    rows: Seq<Seq<u64>>,
    moduli: Seq<u64>,
    n: nat,
)
    requires
        valid_ring(moduli, n),
        c.len() == 2,
        well_shaped(c[0], moduli, n),
        well_shaped(c[1], moduli, n),
        well_shaped(rows, moduli, n),
    ensures
        c.update(0, add_rows(c[0], rows, moduli)) == comb_limbs(
            c,
            seq![rows, zero_rows(moduli.len(), n)],
            1,
            1,
            moduli,
        ),
        c.update(0, sub_rows(c[0], rows, moduli)) == comb_limbs(
            c,
            seq![rows, zero_rows(moduli.len(), n)],
            1,
            -1,
            moduli,
        ),
        neg_limbs(c.update(0, sub_rows(c[0], rows, moduli)), moduli) == comb_limbs(
            c,
            seq![rows, zero_rows(moduli.len(), n)],
            -1,
            1,
            moduli,
        ),
{
    let zero = zero_rows(moduli.len(), n);
    let other = seq![rows, zero];
    let sum = c.update(0, add_rows(c[0], rows, moduli));
    let difference = c.update(0, sub_rows(c[0], rows, moduli));
    let opposite = neg_limbs(difference, moduli);
    let first = comb_limbs(c, other, 1, 1, moduli);
    let second = comb_limbs(c, other, 1, -1, moduli);
    let third = comb_limbs(c, other, -1, 1, moduli);
    lemma_add_rows_is_lincomb(c[0], rows, moduli);
    lemma_sub_rows_is_lincomb(c[0], rows, moduli);
    assert forall|i: int| 0 <= i < moduli.len() implies first[1][i] =~= c[1][i] && second[1][i]
        =~= c[1][i] && third[1][i] =~= opposite[1][i] && third[0][i] =~= opposite[0][i] by {
        lemma_valid_ring(moduli, n, i);
        let q = moduli[i] as int;
        assert forall|j: int| 0 <= j < n implies first[1][i][j] == c[1][i][j] && second[1][i][j]
            == c[1][i][j] && third[1][i][j] == opposite[1][i][j] && third[0][i][j]
            == opposite[0][i][j] by {
            let x = c[1][i][j] as int;
            let y = c[0][i][j] as int;
            let r = rows[i][j] as int;
            lemma_small_mod(x as nat, q as nat);
            assert(1 * x + 1 * 0 == x);
            assert(1 * x + (-1) * 0 == x);
            assert((-1) * x + 1 * 0 == -x);
            // the opposite of the difference
            let dv = (y - r) % q;
            lemma_mod_bound(y - r, q);
            assert(difference[0][i][j] == dv);
            lemma_residue_congruent(y - r, q);
            lemma_congruent_mul(-1, dv, -1, y - r, q);
            assert((-1) * dv == -dv);
            assert((-1) * (y - r) == (-1) * y + 1 * r);
            lemma_mod_bound(-dv, q);
            lemma_mod_bound((-1) * y + 1 * r, q);
            lemma_mod_bound(-x, q);
        }
    }
    assert(first[1] =~= c[1]);
    assert(second[1] =~= c[1]);
    assert(third[1] =~= opposite[1]);
    assert(third[0] =~= opposite[0]);
    assert(sum =~= first);
    assert(difference =~= second);
    assert(opposite =~= third);
}

/// A combination of a fresh encryption and a plaintext decrypts to the
/// combination of the coefficients of their plaintexts modulo `t`, where
/// the noise of the encryption, times its coefficient, is within the
/// budget.
pub proof fn lemma_plain_combination_decrypts(
    sk: &SecretKey,
    pt_a: &Plaintext,
    pt_b: &Plaintext,
    ct: &Ciphertext,
    seed: Seq<u8>,
    words: Seq<u64>,
    alpha: int,
    beta: int,
)
    requires
        sk.wf(),
        pt_a.wf(),
        pt_b.wf(),
        sk.parameters().same_as(pt_a.parameters()),
        sk.parameters().same_as(pt_b.parameters()),
        ct.limbs() == comb_limbs(
            sk.encryption(pt_a, seed, words),
            plain_limbs(pt_b),
            alpha,
            beta,
            sk.parameters().moduli()@,
        ),
        sk.parameters().plaintext_modulus() < sk.parameters().moduli()@[0],
        within_budget(
            scaled_noise(sk, words, alpha),
            combined_message(sk, pt_a, pt_b, alpha, beta),
            sk.parameters().plaintext_modulus() as int,
            product_of(sk.parameters().moduli()@) as int,
        ),
    ensures
        sk.decryption(ct) == Seq::new(
            sk.parameters().degree() as nat,
            |j: int|
                ((alpha * (pt_a.coefficients()[j] as int) + beta * (pt_b.coefficients()[j] as int))
                    % (sk.parameters().plaintext_modulus() as int)) as u64,
        ),
{
    let par = sk.parameters();
    let moduli = par.moduli()@;
    let n = par.degree() as nat;
    let t = par.plaintext_modulus();
    let ti = t as int;
    let qmt = par.q_mod_t() as int;
    let variance = par.variance() as nat;
    let s = sk.secret().rows();
    let la = sk.encryption(pt_a, seed, words);
    let lb = plain_limbs(pt_b);
    let ea = noise_values(words, variance, n);
    let eb = Seq::new(n, |j: int| 0int);
    let ma = message_values(pt_a.coefficients(), qmt, ti);
    let mb = message_values(pt_b.coefficients(), qmt, ti);
    lemma_fresh_carries(sk, pt_a, seed, words);
    lemma_plain_carries(sk, pt_b);
    lemma_combination_carries(la, lb, s, ea, ma, eb, mb, alpha, beta, t, moduli, n);
    let e = Seq::new(n, |j: int| alpha * ea[j] + beta * eb[j]);
    let m = Seq::new(n, |j: int| alpha * ma[j] + beta * mb[j]);
    let mu = Seq::new(
        n,
        |j: int| alpha * (pt_a.coefficients()[j] as int) + beta * (pt_b.coefficients()[j] as int),
    );
    assert(e =~= scaled_noise(sk, words, alpha)) by {
        assert forall|j: int| 0 <= j < n implies e[j] == alpha * ea[j] by {
            assert(beta * 0 == 0);
        }
    }
    assert(m =~= combined_message(sk, pt_a, pt_b, alpha, beta));
    assert forall|j: int| 0 <= j < n implies congruent(
        #[trigger] m[j],
        ((product_of(moduli) as int) % ti) * mu[j],
        ti,
    ) by {
        lemma_message_congruent(pt_a.coefficients(), qmt, ti, j);
        lemma_message_congruent(pt_b.coefficients(), qmt, ti, j);
        let ca = pt_a.coefficients()[j] as int;
        let cb = pt_b.coefficients()[j] as int;
        lemma_congruent_mul(alpha, ma[j], alpha, qmt * ca, ti);
        lemma_congruent_mul(beta, mb[j], beta, qmt * cb, ti);
        lemma_congruent_add(alpha * ma[j], beta * mb[j], alpha * (qmt * ca), beta * (qmt * cb), ti);
        assert(alpha * (qmt * ca) == qmt * (alpha * ca)) by (nonlinear_arith);
        assert(beta * (qmt * cb) == qmt * (beta * cb)) by (nonlinear_arith);
        assert(qmt * (alpha * ca + beta * cb) == qmt * (alpha * ca) + qmt * (beta * cb))
            by (nonlinear_arith);
    }
    lemma_decrypt_carried(phase(ct.limbs(), s, moduli, 0), e, m, mu, t, moduli, n);
}

/// The sum of a fresh encryption and a plaintext decrypts to the sum of
/// the coefficients of their plaintexts modulo `t`, where the noise is
/// within the budget.
pub proof fn lemma_plain_sum_decrypts(
    sk: &SecretKey,
    pt_a: &Plaintext,
    pt_b: &Plaintext,
    ct: &Ciphertext,
    seed: Seq<u8>,
    words: Seq<u64>,
)
    requires
        sk.wf(),
        pt_a.wf(),
        pt_b.wf(),
        sk.parameters().same_as(pt_a.parameters()),
        sk.parameters().same_as(pt_b.parameters()),
        ct.limbs() == sk.encryption(pt_a, seed, words).update(
            0,
            add_rows(
                sk.encryption(pt_a, seed, words)[0],
                Ciphertext::plain_rows_of(pt_b),
                sk.parameters().moduli()@,
            ),
        ),
        sk.parameters().plaintext_modulus() < sk.parameters().moduli()@[0],
        within_budget(
            scaled_noise(sk, words, 1),
            combined_message(sk, pt_a, pt_b, 1, 1),
            sk.parameters().plaintext_modulus() as int,
            product_of(sk.parameters().moduli()@) as int,
        ),
    ensures
        sk.decryption(ct) == add_seq(
            pt_a.coefficients(),
            pt_b.coefficients(),
            sk.parameters().plaintext_modulus() as int,
        ),
{
    let par = sk.parameters();
    let moduli = par.moduli()@;
    let n = par.degree() as nat;
    let ti = par.plaintext_modulus() as int;
    let la = sk.encryption(pt_a, seed, words);
    assert(valid_ring(moduli, n));
    lemma_fresh_carries(sk, pt_a, seed, words);
    lemma_plain_carries(sk, pt_b);
    assert(pt_b.parameters().moduli()@ == moduli);
    lemma_plain_combinations(la, Ciphertext::plain_rows_of(pt_b), moduli, n);
    lemma_plain_combination_decrypts(sk, pt_a, pt_b, ct, seed, words, 1, 1);
    let got = sk.decryption(ct);
    let want = add_seq(
        pt_a.coefficients(),
        pt_b.coefficients(),
        ti,
    );
    assert forall|j: int| 0 <= j < got.len() implies got[j] == want[j] by {
        let a = pt_a.coefficients()[j] as int;
        let b = pt_b.coefficients()[j] as int;
        assert(1 * a + 1 * b == a + b);
    }
    assert(got =~= want);
}

/// The difference of a fresh encryption and a plaintext decrypts to the
/// difference of the coefficients of their plaintexts modulo `t`, where
/// the noise is within the budget.
pub proof fn lemma_plain_difference_decrypts(
    sk: &SecretKey,
    pt_a: &Plaintext,
    pt_b: &Plaintext,
    ct: &Ciphertext,
    seed: Seq<u8>,
    words: Seq<u64>,
)
    requires
        sk.wf(),
        pt_a.wf(),
        pt_b.wf(),
        sk.parameters().same_as(pt_a.parameters()),
        sk.parameters().same_as(pt_b.parameters()),
        ct.limbs() == sk.encryption(pt_a, seed, words).update(
            0,
            sub_rows(
                sk.encryption(pt_a, seed, words)[0],
                Ciphertext::plain_rows_of(pt_b),
                sk.parameters().moduli()@,
            ),
        ),
        sk.parameters().plaintext_modulus() < sk.parameters().moduli()@[0],
        within_budget(
            scaled_noise(sk, words, 1),
            combined_message(sk, pt_a, pt_b, 1, -1),
            sk.parameters().plaintext_modulus() as int,
            product_of(sk.parameters().moduli()@) as int,
        ),
    ensures
        sk.decryption(ct) == sub_seq(
            pt_a.coefficients(),
            pt_b.coefficients(),
            sk.parameters().plaintext_modulus() as int,
        ),
{
    let par = sk.parameters();
    let moduli = par.moduli()@;
    let n = par.degree() as nat;
    let ti = par.plaintext_modulus() as int;
    let la = sk.encryption(pt_a, seed, words);
    assert(valid_ring(moduli, n));
    lemma_fresh_carries(sk, pt_a, seed, words);
    lemma_plain_carries(sk, pt_b);
    assert(pt_b.parameters().moduli()@ == moduli);
    lemma_plain_combinations(la, Ciphertext::plain_rows_of(pt_b), moduli, n);
    lemma_plain_combination_decrypts(sk, pt_a, pt_b, ct, seed, words, 1, -1);
    let got = sk.decryption(ct);
    let want = sub_seq(
        pt_a.coefficients(),
        pt_b.coefficients(),
        ti,
    );
    assert forall|j: int| 0 <= j < got.len() implies got[j] == want[j] by {
        let a = pt_a.coefficients()[j] as int;
        let b = pt_b.coefficients()[j] as int;
        assert(1 * a + (-1) * b == a - b);
    }
    assert(got =~= want);
}

/// The difference of a plaintext and a fresh encryption, the opposite of
/// the difference of the two, decrypts to the difference of the
/// coefficients of the plaintext and those of the plaintext of the
/// encryption modulo `t`, where the noise is within the budget.
pub proof fn lemma_plain_less_encryption_decrypts(
    sk: &SecretKey,
    pt_a: &Plaintext,
    pt_b: &Plaintext,
    ct: &Ciphertext,
    seed: Seq<u8>,
    words: Seq<u64>,
)
    requires
        sk.wf(),
        pt_a.wf(),
        pt_b.wf(),
        sk.parameters().same_as(pt_a.parameters()),
        sk.parameters().same_as(pt_b.parameters()),
        ct.limbs() == neg_limbs(
            sk.encryption(pt_a, seed, words).update(
                0,
                sub_rows(
                    sk.encryption(pt_a, seed, words)[0],
                    Ciphertext::plain_rows_of(pt_b),
                    sk.parameters().moduli()@,
                ),
            ),
            sk.parameters().moduli()@,
        ),
        sk.parameters().plaintext_modulus() < sk.parameters().moduli()@[0],
        within_budget(
            scaled_noise(sk, words, -1),
            combined_message(sk, pt_a, pt_b, -1, 1),
            sk.parameters().plaintext_modulus() as int,
            product_of(sk.parameters().moduli()@) as int,
        ),
    ensures
        sk.decryption(ct) == sub_seq(
            pt_b.coefficients(),
            pt_a.coefficients(),
            sk.parameters().plaintext_modulus() as int,
        ),
{
    let par = sk.parameters();
    let moduli = par.moduli()@;
    let n = par.degree() as nat;
    let ti = par.plaintext_modulus() as int;
    let la = sk.encryption(pt_a, seed, words);
    assert(valid_ring(moduli, n));
    lemma_fresh_carries(sk, pt_a, seed, words);
    lemma_plain_carries(sk, pt_b);
    assert(pt_b.parameters().moduli()@ == moduli);
    lemma_plain_combinations(la, Ciphertext::plain_rows_of(pt_b), moduli, n);
    lemma_plain_combination_decrypts(sk, pt_a, pt_b, ct, seed, words, -1, 1);
    let got = sk.decryption(ct);
    let want = sub_seq(
        pt_b.coefficients(),
        pt_a.coefficients(),
        ti,
    );
    assert forall|j: int| 0 <= j < got.len() implies got[j] == want[j] by {
        let a = pt_a.coefficients()[j] as int;
        let b = pt_b.coefficients()[j] as int;
        assert((-1) * a + 1 * b == b - a);
    }
    assert(got =~= want);
}

/// A sufficient budget: where the ciphertext modulus is at least
/// `4 t (2 variance + 1)`, the sum and the differences of a fresh
/// encryption and a plaintext are within the budget.
pub proof fn lemma_plain_budget(
    sk: &SecretKey,
    pt_a: &Plaintext,
    pt_b: &Plaintext,
    words: Seq<u64>,
    alpha: int,
    beta: int,
)
    requires
        sk.wf(),
        pt_a.wf(),
        pt_b.wf(),
        sk.parameters().same_as(pt_a.parameters()),
        sk.parameters().same_as(pt_b.parameters()),
        -1 <= alpha <= 1,
        -1 <= beta <= 1,
        4 * sk.parameters().plaintext_modulus() * (2 * sk.parameters().variance() + 1)
            <= product_of(sk.parameters().moduli()@),
    ensures
        within_budget(
            scaled_noise(sk, words, alpha),
            combined_message(sk, pt_a, pt_b, alpha, beta),
            sk.parameters().plaintext_modulus() as int,
            product_of(sk.parameters().moduli()@) as int,
        ),
{
    let par = sk.parameters();
    let n = par.degree() as nat;
    let t = par.plaintext_modulus() as int;
    let v = par.variance() as int;
    let q = product_of(par.moduli()@) as int;
    let qmt = par.q_mod_t() as int;
    let e = scaled_noise(sk, words, alpha);
    let m = combined_message(sk, pt_a, pt_b, alpha, beta);
    assert forall|j: int| 0 <= j < e.len() implies -q <= 2 * (t * #[trigger] e[j] - m[j]) < q by {
        lemma_noise_bound(words, v as nat, n, j);
        let ea = noise_values(words, v as nat, n)[j];
        let ma = message_values(pt_a.coefficients(), qmt, t)[j];
        let mb = message_values(pt_b.coefficients(), qmt, t)[j];
        lemma_mod_bound((pt_a.coefficients()[j] as int) * qmt, t);
        lemma_mod_bound((pt_b.coefficients()[j] as int) * qmt, t);
        assert(-(2 * v) <= alpha * ea <= 2 * v) by (nonlinear_arith)
            requires
                -1 <= alpha <= 1,
                -(2 * v) <= ea <= 2 * v,
        ;
        assert(-t < alpha * ma < t) by (nonlinear_arith)
            requires
                -1 <= alpha <= 1,
                0 <= ma < t,
        ;
        assert(-t < beta * mb < t) by (nonlinear_arith)
            requires
                -1 <= beta <= 1,
                0 <= mb < t,
        ;
        let ev = e[j];
        assert(-(4 * v) <= ev <= 4 * v);
        assert(-(t * (4 * v)) <= t * ev <= t * (4 * v)) by (nonlinear_arith)
            requires
                -(4 * v) <= ev <= 4 * v,
                t > 0,
        ;
        assert(4 * t * (2 * v + 1) == 2 * (t * (4 * v)) + 4 * t) by (nonlinear_arith);
    }
}

} // verus!

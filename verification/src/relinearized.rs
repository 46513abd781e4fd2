//! The relinearized product of two fresh encryptions decrypts to the
//! product of their plaintexts.

use crate::batching::lemma_parameters_ready;
use crate::ciphertext::Ciphertext;
use crate::congruence::congruent;
use crate::convolution::negacyclic_product;
use crate::correctness::{
    delta_value, lemma_decrypt_carried, lemma_fresh_carries, lemma_message_congruent,
    lemma_noise_bound, lemma_noisy_rows_shape, message_values, noise_values, noisy_rows,
    within_budget,
};
use crate::extension::lemma_carried;
use crate::integer_ring::{
    bounded, centered_coefficients, combine, lemma_product_residues, lemma_residues_combine,
    lemma_residues_of_centered, lemma_residues_shape, residues, residues_modulo, ring_product,
};
use crate::key_switching::{switched, KeySwitchingKey};
use crate::multiply::{carried, lowered, product_limbs, tensor};
use crate::ntt::{inv_twiddles, lemma_intt_shape};
use crate::plaintext::{decoded_values, encoded_values, Encoding, Plaintext};
use crate::product::{as_integers, lemma_decode_product, product_values};
use crate::relinearization::{
    key_noise_limbs, lemma_forward_backward_rows, lemma_relinearization_keeps_phase,
    switching_noise,
};
use crate::rns::product_of;
use crate::rows_algebra::{
    lemma_add_rows_is_lincomb, lemma_backward_forward_rows, lemma_forward_rows_shape,
    lemma_valid_ring,
};
use crate::rq::{
    add_rows, backward_rows, forward_rows, mul_rows, sampled_rows, small_rows, valid_ring,
    well_shaped, Representation,
};
use crate::secret_key::{phase, SecretKey};
use crate::tensor::{
    folding, lemma_folding_noise, lemma_lowered_rows, lemma_message_out, lemma_operand_phase,
    lemma_phase_of_three, lemma_product_carried, lemma_product_within_budget, lemma_tensor_rows,
    phase_of_three, ProductData,
};
use crate::zq::is_reduced;
use vstd::arithmetic::div_mod::*;
use vstd::prelude::*;

verus! {

/// The noises of the components of a key made with the words, as integers.
pub open spec fn key_noise_values(words: Seq<u64>, variance: nat, count: nat, n: nat) -> Seq<
    Seq<int>,
> {
    Seq::new(count, |l: int| noise_values(words.subrange(n * l, n * (l + 1)), variance, n))
}

/// What the product of the encryptions of two plaintexts under a secret
/// made of words is made of, with a key made of words of noise, through a
/// ring of the moduli `em`.
pub open spec fn fresh_operands(
    sk: &SecretKey,
    secret_words: Seq<u64>,
    key_words: Seq<u64>,
    pt_a: &Plaintext,
    seed_a: Seq<u8>,
    words_a: Seq<u64>,
    pt_b: &Plaintext,
    seed_b: Seq<u8>,
    words_b: Seq<u64>,
    em: Seq<u64>,
) -> ProductData {
    let par = sk.parameters();
    let m = par.moduli()@;
    let n = par.degree() as nat;
    let v = par.variance() as nat;
    let t = par.plaintext_modulus();
    let a = sk.encryption(pt_a, seed_a, words_a);
    let b = sk.encryption(pt_b, seed_b, words_b);
    ProductData {
        m,
        em,
        n,
        t,
        bound: 2 * (v as int),
        s: noise_values(secret_words, v, n),
        a0: centered_coefficients(backward_rows(a[0], m, n), m, n),
        a1: centered_coefficients(backward_rows(a[1], m, n), m, n),
        b0: centered_coefficients(backward_rows(b[0], m, n), m, n),
        b1: centered_coefficients(backward_rows(b[1], m, n), m, n),
        ea: noise_values(words_a, v, n),
        ma: message_values(pt_a.coefficients(), par.q_mod_t() as int, t as int),
        eb: noise_values(words_b, v, n),
        mb: message_values(pt_b.coefficients(), par.q_mod_t() as int, t as int),
        key_noise: key_noise_values(key_words, v, m.len(), n),
    }
}

/// What the product of two fresh encryptions through the ring of the first
/// multiplication is made of.
pub open spec fn fresh_product(
    sk: &SecretKey,
    secret_words: Seq<u64>,
    key_words: Seq<u64>,
    pt_a: &Plaintext,
    seed_a: Seq<u8>,
    words_a: Seq<u64>,
    pt_b: &Plaintext,
    seed_b: Seq<u8>,
    words_b: Seq<u64>,
) -> ProductData {
    fresh_operands(
        sk,
        secret_words,
        key_words,
        pt_a,
        seed_a,
        words_a,
        pt_b,
        seed_b,
        words_b,
        sk.parameters().mul_1_params().extended().moduli()@,
    )
}

/// The rows of the samples of words are the residues of the noise that the
/// words give.
pub proof fn lemma_small_rows(words: Seq<u64>, variance: nat, moduli: Seq<u64>, n: nat)
    ensures
        small_rows(words, variance, moduli, n) == residues(
            noise_values(words, variance, n),
            moduli,
        ),
{
    let left = small_rows(words, variance, moduli, n);
    let right = residues(noise_values(words, variance, n), moduli);
    assert forall|i: int| 0 <= i < moduli.len() implies left[i] =~= right[i] by {}
    assert(left =~= right);
}

/// The backward transforms of rows of the ring have the shape of the ring.
pub proof fn lemma_backward_rows_shape(x: Seq<Seq<u64>>, moduli: Seq<u64>, n: nat)
    requires
        valid_ring(moduli, n),
        well_shaped(x, moduli, n),
    ensures
        well_shaped(backward_rows(x, moduli, n), moduli, n),
{
    let b = backward_rows(x, moduli, n);
    assert forall|i: int| 0 <= i < b.len() implies (#[trigger] b[i]).len() == n && is_reduced(
        b[i],
        moduli[i] as int,
    ) by {
        lemma_valid_ring(moduli, n, i);
        lemma_intt_shape(x[i], inv_twiddles(moduli[i] as int, n), 1, moduli[i] as int);
    }
}

/// A fresh encryption, as integers: its two ring elements are the
/// transforms of the residues of their centered coefficients, which are at
/// most half the ciphertext modulus, and its phase is its noise plus its
/// scaled message times `-1/t`, modulo each modulus.
pub proof fn lemma_fresh_operand(
    sk: &SecretKey,
    secret_words: Seq<u64>,
    pt: &Plaintext,
    seed: Seq<u8>,
    words: Seq<u64>,
)
    requires
        sk.wf(),
        pt.wf(),
        sk.parameters().same_as(pt.parameters()),
        sk.secret().rows() == sampled_rows(
            secret_words,
            sk.parameters().variance() as nat,
            Representation::NttShoup,
            sk.parameters().moduli()@,
            sk.parameters().degree() as nat,
        ),
    ensures
        ({
            let par = sk.parameters();
            let m = par.moduli()@;
            let n = par.degree() as nat;
            let v = par.variance() as nat;
            let t = par.plaintext_modulus();
            let c = sk.encryption(pt, seed, words);
            let x0 = centered_coefficients(backward_rows(c[0], m, n), m, n);
            let x1 = centered_coefficients(backward_rows(c[1], m, n), m, n);
            let s = noise_values(secret_words, v, n);
            let e = noise_values(words, v, n);
            let mv = message_values(pt.coefficients(), par.q_mod_t() as int, t as int);
            &&& x0.len() == n
            &&& x1.len() == n
            &&& bounded(x0, product_of(m) as int)
            &&& bounded(x1, product_of(m) as int)
            &&& c[0] == forward_rows(residues(x0, m), m, n)
            &&& c[1] == forward_rows(residues(x1, m), m, n)
            &&& sk.secret().rows() == forward_rows(residues(s, m), m, n)
            &&& residues(combine(ring_product(x1, s), x0, 1, 1), m) == residues(
                combine(e, mv, 1, delta_value(t, m)),
                m,
            )
        }),
{
    let par = sk.parameters();
    let m = par.moduli()@;
    let n = par.degree() as nat;
    let v = par.variance() as nat;
    let t = par.plaintext_modulus();
    let dl = delta_value(t, m);
    let c = sk.encryption(pt, seed, words);
    let b0 = backward_rows(c[0], m, n);
    let b1 = backward_rows(c[1], m, n);
    let x0 = centered_coefficients(b0, m, n);
    let x1 = centered_coefficients(b1, m, n);
    let s = noise_values(secret_words, v, n);
    let e = noise_values(words, v, n);
    let mv = message_values(pt.coefficients(), par.q_mod_t() as int, t as int);
    let sr = sk.secret().rows();
    assert(valid_ring(m, n));
    lemma_fresh_carries(sk, pt, seed, words);
    reveal_with_fuel(phase, 3);
    assert(phase(c, sr, m, 0) == add_rows(mul_rows(c[1], sr, m), c[0], m));
    lemma_backward_rows_shape(c[0], m, n);
    lemma_backward_rows_shape(c[1], m, n);
    lemma_residues_of_centered(b0, m, n);
    lemma_residues_of_centered(b1, m, n);
    lemma_forward_backward_rows(c[0], m, n);
    lemma_forward_backward_rows(c[1], m, n);
    lemma_small_rows(secret_words, v, m, n);
    lemma_operand_phase(x0, x1, s, m, n);
    let phi = combine(ring_product(x1, s), x0, 1, 1);
    let noisy = noisy_rows(e, mv, dl, m, n);
    assert(forward_rows(residues(phi, m), m, n) == forward_rows(noisy, m, n));
    lemma_residues_shape(phi, m, n);
    lemma_noisy_rows_shape(e, mv, dl, m, n);
    lemma_backward_forward_rows(residues(phi, m), m, n);
    lemma_backward_forward_rows(noisy, m, n);
    let y = residues(combine(e, mv, 1, dl), m);
    assert forall|i: int| 0 <= i < m.len() implies noisy[i] =~= y[i] by {}
    assert(noisy =~= y);
    crate::rns::lemma_product_at_least_two(m);
}

/// The setting of two fresh encryptions: the secret is made of the words,
/// and the plaintexts have its parameters.
pub open spec fn operand_setting(
    sk: &SecretKey,
    secret_words: Seq<u64>,
    pt_a: &Plaintext,
    pt_b: &Plaintext,
) -> bool {
    &&& sk.wf()
    &&& pt_a.wf()
    &&& pt_b.wf()
    &&& sk.parameters().same_as(pt_a.parameters())
    &&& sk.parameters().same_as(pt_b.parameters())
    &&& sk.secret().rows() == sampled_rows(
        secret_words,
        sk.parameters().variance() as nat,
        Representation::NttShoup,
        sk.parameters().moduli()@,
        sk.parameters().degree() as nat,
    )
}

/// The setting of a relinearized product of two fresh encryptions: that of
/// the two encryptions, with a key that carries the square of the secret
/// to it.
pub open spec fn product_setting(
    sk: &SecretKey,
    secret_words: Seq<u64>,
    key: &KeySwitchingKey,
    key_seed: Seq<u8>,
    key_words: Seq<u64>,
    pt_a: &Plaintext,
    pt_b: &Plaintext,
) -> bool {
    &&& operand_setting(sk, secret_words, pt_a, pt_b)
    &&& key.wf()
    &&& *key.parameters() == *sk.parameters()
    &&& sk.made_with(key, sk.square(), key_seed, key_words)
}

/// The data of a product of two fresh encryptions have their shape, and
/// its operands carry their messages with their noises.
pub proof fn lemma_fresh_shaped(
    sk: &SecretKey,
    secret_words: Seq<u64>,
    key_words: Seq<u64>,
    pt_a: &Plaintext,
    seed_a: Seq<u8>,
    words_a: Seq<u64>,
    pt_b: &Plaintext,
    seed_b: Seq<u8>,
    words_b: Seq<u64>,
    em: Seq<u64>,
)
    requires
        operand_setting(sk, secret_words, pt_a, pt_b),
        valid_ring(em, sk.parameters().degree() as nat),
    ensures
        fresh_operands(
            sk,
            secret_words,
            key_words,
            pt_a,
            seed_a,
            words_a,
            pt_b,
            seed_b,
            words_b,
            em,
        ).shaped(),
        fresh_operands(
            sk,
            secret_words,
            key_words,
            pt_a,
            seed_a,
            words_a,
            pt_b,
            seed_b,
            words_b,
            em,
        ).linked(),
{
    let par = sk.parameters();
    let m = par.moduli()@;
    let n = par.degree() as nat;
    let v = par.variance() as nat;
    let t = par.plaintext_modulus();
    let ti = t as int;
    let d = fresh_operands(
        sk,
        secret_words,
        key_words,
        pt_a,
        seed_a,
        words_a,
        pt_b,
        seed_b,
        words_b,
        em,
    );
    assert(valid_ring(m, n));
    lemma_fresh_operand(sk, secret_words, pt_a, seed_a, words_a);
    lemma_fresh_operand(sk, secret_words, pt_b, seed_b, words_b);
    assert forall|j: int| 0 <= j < n implies -d.bound <= #[trigger] d.s[j] <= d.bound by {
        lemma_noise_bound(secret_words, v, n, j);
    }
    assert forall|j: int| 0 <= j < n implies -d.bound <= #[trigger] d.ea[j] <= d.bound by {
        lemma_noise_bound(words_a, v, n, j);
    }
    assert forall|j: int| 0 <= j < n implies -d.bound <= #[trigger] d.eb[j] <= d.bound by {
        lemma_noise_bound(words_b, v, n, j);
    }
    assert forall|j: int| 0 <= j < n implies -ti <= #[trigger] d.ma[j] <= ti by {
        lemma_mod_bound((pt_a.coefficients()[j] as int) * (par.q_mod_t() as int), ti);
    }
    assert forall|j: int| 0 <= j < n implies -ti <= #[trigger] d.mb[j] <= ti by {
        lemma_mod_bound((pt_b.coefficients()[j] as int) * (par.q_mod_t() as int), ti);
    }
    assert forall|l: int| 0 <= l < m.len() implies (#[trigger] d.key_noise[l]).len() == n
        && bounded(d.key_noise[l], d.bound) by {
        let w = key_words.subrange(n * l, n * (l + 1));
        assert forall|j: int| 0 <= j < n implies -d.bound <= #[trigger] d.key_noise[l][j]
            <= d.bound by {
            lemma_noise_bound(w, v, n, j);
        }
    }
}

/// Folding keeps the phase, as integers: the two ring elements into which
/// the third of three ring elements was folded with a key that carries the
/// square of the secret have the phase of the three plus the noise of the
/// folding.
pub proof fn lemma_folded_phase(
    sk: &SecretKey,
    secret_words: Seq<u64>,
    key: &KeySwitchingKey,
    key_seed: Seq<u8>,
    key_words: Seq<u64>,
    y0: Seq<int>,
    y1: Seq<int>,
    y2: Seq<int>,
)
    requires
        sk.wf(),
        key.wf(),
        *key.parameters() == *sk.parameters(),
        sk.secret().rows() == sampled_rows(
            secret_words,
            sk.parameters().variance() as nat,
            Representation::NttShoup,
            sk.parameters().moduli()@,
            sk.parameters().degree() as nat,
        ),
        sk.made_with(key, sk.square(), key_seed, key_words),
        y0.len() == sk.parameters().degree(),
        y1.len() == sk.parameters().degree(),
        y2.len() == sk.parameters().degree(),
    ensures
        ({
            let m = sk.parameters().moduli()@;
            let n = sk.parameters().degree() as nat;
            let v = sk.parameters().variance() as nat;
            phase(
                seq![
                    switched(
                        forward_rows(residues(y0, m), m, n),
                        residues(y2, m),
                        key.body_limbs(),
                        m,
                        n,
                        m.len(),
                    ),
                    switched(
                        forward_rows(residues(y1, m), m, n),
                        residues(y2, m),
                        key.mask_limbs(),
                        m,
                        n,
                        m.len(),
                    ),
                ],
                sk.secret().rows(),
                m,
                0,
            ) == forward_rows(
                residues(
                    combine(
                        phase_of_three(y0, y1, y2, noise_values(secret_words, v, n)),
                        folding(y2, key_noise_values(key_words, v, m.len(), n), m, m.len()),
                        1,
                        1,
                    ),
                    m,
                ),
                m,
                n,
            )
        }),
{
    let par = sk.parameters();
    let m = par.moduli()@;
    let n = par.degree() as nat;
    let v = par.variance() as nat;
    let s = noise_values(secret_words, v, n);
    let key_noise = key_noise_values(key_words, v, m.len(), n);
    let sr = sk.secret().rows();
    assert(valid_ring(m, n));
    let f0 = forward_rows(residues(y0, m), m, n);
    let f1 = forward_rows(residues(y1, m), m, n);
    let r2 = residues(y2, m);
    lemma_small_rows(secret_words, v, m, n);
    assert(sr == forward_rows(residues(s, m), m, n));
    lemma_residues_shape(y0, m, n);
    lemma_residues_shape(y1, m, n);
    lemma_residues_shape(y2, m, n);
    lemma_forward_rows_shape(residues(y0, m), m, n);
    lemma_forward_rows_shape(residues(y1, m), m, n);
    lemma_relinearization_keeps_phase(sk, key, key_seed, key_words, f0, f1, r2);
    lemma_phase_of_three(y0, y1, y2, s, m, n);
    lemma_folding_noise(y2, key_noise, m, n, m.len());
    let noises = key_noise_limbs(key_words, v, m, n);
    let wanted = Seq::new(m.len(), |l: int| forward_rows(residues(key_noise[l], m), m, n));
    assert forall|l: int| 0 <= l < m.len() implies noises[l] == wanted[l] by {
        lemma_small_rows(key_words.subrange(n * l, n * (l + 1)), v, m, n);
    }
    assert(noises =~= wanted);
    let whole = phase_of_three(y0, y1, y2, s);
    let fold = folding(y2, key_noise, m, m.len());
    assert(switching_noise(r2, key_words, v, m, n) == forward_rows(residues(fold, m), m, n));
    lemma_residues_combine(whole, fold, 1, 1, m, n);
    lemma_add_rows_is_lincomb(
        forward_rows(residues(whole, m), m, n),
        forward_rows(residues(fold, m), m, n),
        m,
    );
}

/// A ciphertext whose phase is, modulo each modulus, a noise plus the
/// scaled message of a product times `-1/t` decrypts to the negacyclic
/// product of the coefficients of the plaintexts modulo `t`, where the
/// noise and the message are within the budget.
pub proof fn lemma_carried_product_decrypts(
    sk: &SecretKey,
    pt_a: &Plaintext,
    pt_b: &Plaintext,
    ct: &Ciphertext,
    d: ProductData,
    e: Seq<int>,
    ph: Seq<int>,
)
    requires
        sk.wf(),
        pt_a.wf(),
        pt_b.wf(),
        sk.parameters().same_as(pt_a.parameters()),
        sk.parameters().same_as(pt_b.parameters()),
        sk.parameters().plaintext_modulus() < sk.parameters().moduli()@[0],
        d.shaped(),
        d.m == sk.parameters().moduli()@,
        d.n == sk.parameters().degree(),
        d.t == sk.parameters().plaintext_modulus(),
        d.ma == message_values(
            pt_a.coefficients(),
            sk.parameters().q_mod_t() as int,
            sk.parameters().plaintext_modulus() as int,
        ),
        d.mb == message_values(
            pt_b.coefficients(),
            sk.parameters().q_mod_t() as int,
            sk.parameters().plaintext_modulus() as int,
        ),
        e.len() == d.n,
        phase(ct.limbs(), sk.secret().rows(), d.m, 0) == forward_rows(
            residues(ph, d.m),
            d.m,
            d.n,
        ),
        residues(ph, d.m) == noisy_rows(e, d.m_out(), d.delta(), d.m, d.n),
        within_budget(e, d.m_out(), d.t as int, d.q()),
    ensures
        sk.decryption(ct) == negacyclic_product(
            pt_a.coefficients(),
            pt_b.coefficients(),
            sk.parameters().plaintext_modulus() as int,
        ),
{
    let par = sk.parameters();
    let m = par.moduli()@;
    let n = par.degree() as nat;
    let t = par.plaintext_modulus();
    let ti = t as int;
    let q = product_of(m) as int;
    let c = phase(ct.limbs(), sk.secret().rows(), m, 0);
    let ai = as_integers(pt_a.coefficients());
    let bi = as_integers(pt_b.coefficients());
    let mu = ring_product(ai, bi);
    assert forall|i: int| 0 <= i < n implies congruent(#[trigger] d.ma[i], (q % ti) * ai[i], ti) by {
        lemma_message_congruent(pt_a.coefficients(), par.q_mod_t() as int, ti, i);
    }
    assert forall|i: int| 0 <= i < n implies congruent(#[trigger] d.mb[i], (q % ti) * bi[i], ti) by {
        lemma_message_congruent(pt_b.coefficients(), par.q_mod_t() as int, ti, i);
    }
    assert forall|k: int| 0 <= k < n implies congruent(
        #[trigger] d.m_out()[k],
        (q % ti) * mu[k],
        ti,
    ) by {
        lemma_message_out(d, ai, bi, k);
    }
    lemma_decrypt_carried(c, e, d.m_out(), mu, t, m, n);
    lemma_product_residues(ai, bi, ti);
    assert(residues_modulo(ai, ti) =~= pt_a.coefficients()) by {
        assert forall|j: int| 0 <= j < n implies residues_modulo(ai, ti)[j]
            == pt_a.coefficients()[j] by {
            lemma_small_mod(pt_a.coefficients()[j] as nat, t as nat);
        }
    }
    assert(residues_modulo(bi, ti) =~= pt_b.coefficients()) by {
        assert forall|j: int| 0 <= j < n implies residues_modulo(bi, ti)[j]
            == pt_b.coefficients()[j] by {
            lemma_small_mod(pt_b.coefficients()[j] as nat, t as nat);
        }
    }
    assert(sk.decryption(ct) =~= residues_modulo(mu, ti));
}

/// The limbs of the product of two fresh encryptions are the first two
/// ring elements of the product, brought down, with the third folded into
/// them.
pub proof fn lemma_fresh_product_limbs(
    sk: &SecretKey,
    secret_words: Seq<u64>,
    key: &KeySwitchingKey,
    key_seed: Seq<u8>,
    key_words: Seq<u64>,
    pt_a: &Plaintext,
    seed_a: Seq<u8>,
    words_a: Seq<u64>,
    pt_b: &Plaintext,
    seed_b: Seq<u8>,
    words_b: Seq<u64>,
)
    requires
        product_setting(sk, secret_words, key, key_seed, key_words, pt_a, pt_b),
        fresh_product(
            sk,
            secret_words,
            key_words,
            pt_a,
            seed_a,
            words_a,
            pt_b,
            seed_b,
            words_b,
        ).ready(),
    ensures
        ({
            let d = fresh_product(
                sk,
                secret_words,
                key_words,
                pt_a,
                seed_a,
                words_a,
                pt_b,
                seed_b,
                words_b,
            );
            product_limbs(
                sk.encryption(pt_a, seed_a, words_a),
                sk.encryption(pt_b, seed_b, words_b),
                sk.parameters().mul_1_params(),
                key.body_limbs(),
                key.mask_limbs(),
            ) == seq![
                switched(
                    forward_rows(residues(d.d0(), d.m), d.m, d.n),
                    residues(d.d2(), d.m),
                    key.body_limbs(),
                    d.m,
                    d.n,
                    d.m.len(),
                ),
                switched(
                    forward_rows(residues(d.d1(), d.m), d.m, d.n),
                    residues(d.d2(), d.m),
                    key.mask_limbs(),
                    d.m,
                    d.n,
                    d.m.len(),
                ),
            ]
        }),
{
    let par = sk.parameters();
    let m = par.moduli()@;
    let n = par.degree() as nat;
    let mp = par.mul_1_params();
    let em = mp.extended().moduli()@;
    let d = fresh_product(sk, secret_words, key_words, pt_a, seed_a, words_a, pt_b, seed_b, words_b);
    let a = sk.encryption(pt_a, seed_a, words_a);
    let b = sk.encryption(pt_b, seed_b, words_b);
    lemma_fresh_carries(sk, pt_a, seed_a, words_a);
    lemma_fresh_carries(sk, pt_b, seed_b, words_b);
    lemma_carried(a[0], m, em, n);
    lemma_carried(a[1], m, em, n);
    lemma_carried(b[0], m, em, n);
    lemma_carried(b[1], m, em, n);
    lemma_tensor_rows(d.a0, d.a1, d.b0, d.b1, em, n);
    lemma_lowered_rows(d);
    let ext = tensor(
        seq![carried(a[0], mp.extender_self()), carried(a[1], mp.extender_self())],
        seq![carried(b[0], mp.extender_other()), carried(b[1], mp.extender_other())],
        em,
    );
    assert(carried(a[0], mp.extender_self()) == forward_rows(residues(d.a0, em), em, n));
    assert(carried(a[1], mp.extender_self()) == forward_rows(residues(d.a1, em), em, n));
    assert(carried(b[0], mp.extender_other()) == forward_rows(residues(d.b0, em), em, n));
    assert(carried(b[1], mp.extender_other()) == forward_rows(residues(d.b1, em), em, n));
    assert(ext[0] == forward_rows(residues(d.t0(), em), em, n));
    assert(ext[1] == forward_rows(residues(d.t1(), em), em, n));
    assert(ext[2] == forward_rows(residues(d.t2(), em), em, n));
    assert(lowered(ext[0], mp.down_scaler()) == residues(d.d0(), m));
    assert(lowered(ext[1], mp.down_scaler()) == residues(d.d1(), m));
    assert(lowered(ext[2], mp.down_scaler()) == residues(d.d2(), m));
}

/// The relinearized product of two fresh encryptions decrypts to the
/// negacyclic product of the coefficients of their plaintexts modulo `t`:
/// where the extended ring has room for the product of the phases, and
/// the noise of the product is within the budget.
pub proof fn lemma_relinearized_product_decrypts(
    sk: &SecretKey,
    secret_words: Seq<u64>,
    key: &KeySwitchingKey,
    key_seed: Seq<u8>,
    key_words: Seq<u64>,
    pt_a: &Plaintext,
    seed_a: Seq<u8>,
    words_a: Seq<u64>,
    pt_b: &Plaintext,
    seed_b: Seq<u8>,
    words_b: Seq<u64>,
    ct: &Ciphertext,
)
    requires
        product_setting(sk, secret_words, key, key_seed, key_words, pt_a, pt_b),
        ct.limbs() == product_limbs(
            sk.encryption(pt_a, seed_a, words_a),
            sk.encryption(pt_b, seed_b, words_b),
            sk.parameters().mul_1_params(),
            key.body_limbs(),
            key.mask_limbs(),
        ),
        sk.parameters().plaintext_modulus() < sk.parameters().moduli()@[0],
        fresh_product(
            sk,
            secret_words,
            key_words,
            pt_a,
            seed_a,
            words_a,
            pt_b,
            seed_b,
            words_b,
        ).extension_has_room(),
        within_budget(
            fresh_product(
                sk,
                secret_words,
                key_words,
                pt_a,
                seed_a,
                words_a,
                pt_b,
                seed_b,
                words_b,
            ).e_out(),
            fresh_product(
                sk,
                secret_words,
                key_words,
                pt_a,
                seed_a,
                words_a,
                pt_b,
                seed_b,
                words_b,
            ).m_out(),
            sk.parameters().plaintext_modulus() as int,
            product_of(sk.parameters().moduli()@) as int,
        ),
    ensures
        sk.decryption(ct) == negacyclic_product(
            pt_a.coefficients(),
            pt_b.coefficients(),
            sk.parameters().plaintext_modulus() as int,
        ),
{
    let par = sk.parameters();
    let em = par.mul_1_params().extended().moduli()@;
    let d = fresh_product(sk, secret_words, key_words, pt_a, seed_a, words_a, pt_b, seed_b, words_b);
    par.mul_1_params().extended().lemma_wf();
    lemma_fresh_shaped(
        sk,
        secret_words,
        key_words,
        pt_a,
        seed_a,
        words_a,
        pt_b,
        seed_b,
        words_b,
        em,
    );
    lemma_fresh_product_limbs(
        sk,
        secret_words,
        key,
        key_seed,
        key_words,
        pt_a,
        seed_a,
        words_a,
        pt_b,
        seed_b,
        words_b,
    );
    crate::tensor::lemma_tensor_bounds(d);
    lemma_folded_phase(sk, secret_words, key, key_seed, key_words, d.d0(), d.d1(), d.d2());
    lemma_product_carried(d);
    lemma_carried_product_decrypts(sk, pt_a, pt_b, ct, d, d.e_out(), d.phase_out());
}

/// A sufficient budget for the relinearized product: where the ciphertext
/// modulus leaves room for the bound on the noise of the product, the
/// noise of the product of two fresh encryptions is within the budget.
pub proof fn lemma_relinearized_product_budget(
    sk: &SecretKey,
    secret_words: Seq<u64>,
    key: &KeySwitchingKey,
    key_seed: Seq<u8>,
    key_words: Seq<u64>,
    pt_a: &Plaintext,
    seed_a: Seq<u8>,
    words_a: Seq<u64>,
    pt_b: &Plaintext,
    seed_b: Seq<u8>,
    words_b: Seq<u64>,
)
    requires
        product_setting(sk, secret_words, key, key_seed, key_words, pt_a, pt_b),
        fresh_product(
            sk,
            secret_words,
            key_words,
            pt_a,
            seed_a,
            words_a,
            pt_b,
            seed_b,
            words_b,
        ).extension_has_room(),
        fresh_product(
            sk,
            secret_words,
            key_words,
            pt_a,
            seed_a,
            words_a,
            pt_b,
            seed_b,
            words_b,
        ).within_product_budget(),
    ensures
        within_budget(
            fresh_product(
                sk,
                secret_words,
                key_words,
                pt_a,
                seed_a,
                words_a,
                pt_b,
                seed_b,
                words_b,
            ).e_out(),
            fresh_product(
                sk,
                secret_words,
                key_words,
                pt_a,
                seed_a,
                words_a,
                pt_b,
                seed_b,
                words_b,
            ).m_out(),
            sk.parameters().plaintext_modulus() as int,
            product_of(sk.parameters().moduli()@) as int,
        ),
{
    let par = sk.parameters();
    let ti = par.plaintext_modulus() as int;
    let q = product_of(par.moduli()@) as int;
    let em = par.mul_1_params().extended().moduli()@;
    let d = fresh_product(sk, secret_words, key_words, pt_a, seed_a, words_a, pt_b, seed_b, words_b);
    par.mul_1_params().extended().lemma_wf();
    lemma_fresh_shaped(
        sk,
        secret_words,
        key_words,
        pt_a,
        seed_a,
        words_a,
        pt_b,
        seed_b,
        words_b,
        em,
    );
    assert forall|k: int| 0 <= k < d.e_out().len() implies -q <= 2 * (ti * #[trigger] d.e_out()[k]
        - d.m_out()[k]) < q by {
        lemma_product_within_budget(d, k);
    }
}

/// The relinearized product of two fresh encryptions of encoded values
/// decrypts and decodes to the product of the values: their negacyclic
/// product in the coefficient encoding, their product slot by slot in the
/// batched one, where the extended ring has room for the product of the
/// phases, and the noise of the product is within the budget.
pub proof fn lemma_relinearized_product_decodes(
    sk: &SecretKey,
    secret_words: Seq<u64>,
    key: &KeySwitchingKey,
    key_seed: Seq<u8>,
    key_words: Seq<u64>,
    pt_a: &Plaintext,
    seed_a: Seq<u8>,
    words_a: Seq<u64>,
    pt_b: &Plaintext,
    seed_b: Seq<u8>,
    words_b: Seq<u64>,
    ct: &Ciphertext,
    a: Seq<u64>,
    b: Seq<u64>,
    encoding: Encoding,
)
    requires
        product_setting(sk, secret_words, key, key_seed, key_words, pt_a, pt_b),
        encoding == Encoding::Simd ==> sk.parameters().spec_op() is Some,
        a.len() <= sk.parameters().degree(),
        b.len() <= sk.parameters().degree(),
        pt_a.coefficients() == encoded_values(
            a,
            encoding,
            sk.parameters().index_map()@,
            sk.parameters().plaintext_modulus() as int,
            sk.parameters().degree() as nat,
        ),
        pt_b.coefficients() == encoded_values(
            b,
            encoding,
            sk.parameters().index_map()@,
            sk.parameters().plaintext_modulus() as int,
            sk.parameters().degree() as nat,
        ),
        ct.limbs() == product_limbs(
            sk.encryption(pt_a, seed_a, words_a),
            sk.encryption(pt_b, seed_b, words_b),
            sk.parameters().mul_1_params(),
            key.body_limbs(),
            key.mask_limbs(),
        ),
        sk.parameters().plaintext_modulus() < sk.parameters().moduli()@[0],
        fresh_product(
            sk,
            secret_words,
            key_words,
            pt_a,
            seed_a,
            words_a,
            pt_b,
            seed_b,
            words_b,
        ).extension_has_room(),
        within_budget(
            fresh_product(
                sk,
                secret_words,
                key_words,
                pt_a,
                seed_a,
                words_a,
                pt_b,
                seed_b,
                words_b,
            ).e_out(),
            fresh_product(
                sk,
                secret_words,
                key_words,
                pt_a,
                seed_a,
                words_a,
                pt_b,
                seed_b,
                words_b,
            ).m_out(),
            sk.parameters().plaintext_modulus() as int,
            product_of(sk.parameters().moduli()@) as int,
        ),
    ensures
        decoded_values(
            sk.decryption(ct),
            encoding,
            sk.parameters().index_map()@,
            sk.parameters().plaintext_modulus() as int,
            sk.parameters().degree() as nat,
        ) == product_values(
            a,
            b,
            encoding,
            sk.parameters().plaintext_modulus() as int,
            sk.parameters().degree() as nat,
        ),
{
    let par = sk.parameters();
    lemma_parameters_ready(par, encoding);
    lemma_relinearized_product_decrypts(
        sk,
        secret_words,
        key,
        key_seed,
        key_words,
        pt_a,
        seed_a,
        words_a,
        pt_b,
        seed_b,
        words_b,
        ct,
    );
    lemma_decode_product(
        a,
        b,
        encoding,
        par.index_map()@,
        par.plaintext_modulus() as int,
        par.degree() as nat,
    );
}

} // verus!

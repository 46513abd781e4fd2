//! The relinearized product of two fresh encryptions through the ring of
//! the second multiplication, into whose extending moduli the second
//! operand is scaled, decrypts to the product of their plaintexts.

use crate::batching::lemma_parameters_ready;
use crate::ciphertext::Ciphertext;
use crate::convolution::negacyclic_product;
use crate::correctness::{lemma_fresh_carries, within_budget};
use crate::extension::{lemma_carried, lemma_scaled_rows};
use crate::integer_ring::residues;
use crate::key_switching::{switched, KeySwitchingKey};
use crate::multiply::{carried, lowered, product_limbs, tensor};
use crate::parameters::second_extension;
use crate::plaintext::{decoded_values, encoded_values, Encoding, Plaintext};
use crate::product::{lemma_decode_product, product_values};
use crate::relinearized::{
    fresh_operands, lemma_carried_product_decrypts, lemma_folded_phase, lemma_fresh_shaped,
    product_setting,
};
use crate::rns::{lemma_product_positive, product_of};
use crate::rows_algebra::lemma_valid_ring;
use crate::rq::{backward_rows, forward_rows};
use crate::scaled_product::{
    lemma_scaled_carried, lemma_scaled_lowered, lemma_scaled_shape, lemma_scaled_within_budget,
    ScaledProduct,
};
use crate::secret_key::SecretKey;
use crate::tensor::lemma_tensor_rows;
use vstd::prelude::*;

verus! {

/// What the product of two fresh encryptions through the ring of the
/// second multiplication is made of.
pub open spec fn fresh_scaled_product(
    sk: &SecretKey,
    secret_words: Seq<u64>,
    key_words: Seq<u64>,
    pt_a: &Plaintext,
    seed_a: Seq<u8>,
    words_a: Seq<u64>,
    pt_b: &Plaintext,
    seed_b: Seq<u8>,
    words_b: Seq<u64>,
) -> ScaledProduct {
    ScaledProduct {
        d: fresh_operands(
            sk,
            secret_words,
            key_words,
            pt_a,
            seed_a,
            words_a,
            pt_b,
            seed_b,
            words_b,
            sk.parameters().mul_2_params().extended().moduli()@,
        ),
        ext: second_extension(sk.parameters().moduli()@, sk.parameters().degree() as nat),
    }
}

/// The data of a product of two fresh encryptions through the ring of the
/// second multiplication have their shape, and its operands carry their
/// messages with their noises.
pub proof fn lemma_fresh_scaled_shaped(
    sk: &SecretKey,
    secret_words: Seq<u64>,
    key: &KeySwitchingKey,
    key_seed: Seq<u8>,
    key_words: Seq<u64>,
    pt_a: &Plaintext,
    seed_a: Seq<u8>,
    words_a: Seq<u64>,
    pt_b: &Plaintext,
    seed_b: Seq<u8>,
    words_b: Seq<u64>,
)
    requires
        product_setting(sk, secret_words, key, key_seed, key_words, pt_a, pt_b),
    ensures
        fresh_scaled_product(
            sk,
            secret_words,
            key_words,
            pt_a,
            seed_a,
            words_a,
            pt_b,
            seed_b,
            words_b,
        ).shaped(),
        fresh_scaled_product(
            sk,
            secret_words,
            key_words,
            pt_a,
            seed_a,
            words_a,
            pt_b,
            seed_b,
            words_b,
        ).d.linked(),
{
    let par = sk.parameters();
    let m = par.moduli()@;
    let n = par.degree() as nat;
    let em = par.mul_2_params().extended().moduli()@;
    let sp = fresh_scaled_product(
        sk,
        secret_words,
        key_words,
        pt_a,
        seed_a,
        words_a,
        pt_b,
        seed_b,
        words_b,
    );
    par.mul_2_params().extended().lemma_wf();
    lemma_fresh_shaped(
        sk,
        secret_words,
        key_words,
        pt_a,
        seed_a,
        words_a,
        pt_b,
        seed_b,
        words_b,
        em,
    );
    assert forall|i: int| 0 <= i < sp.ext.len() implies (#[trigger] sp.ext[i]) >= 1 by {
        lemma_valid_ring(em, n, m.len() + i);
        assert(em[m.len() + i] == sp.ext[i]);
    }
    lemma_product_positive(sp.ext);
}

/// The limbs of the product of two fresh encryptions through the ring of
/// the second multiplication are the first two ring elements of the
/// product, brought down, with the third folded into them.
pub proof fn lemma_fresh_scaled_limbs(
    sk: &SecretKey,
    secret_words: Seq<u64>,
    key: &KeySwitchingKey,
    key_seed: Seq<u8>,
    key_words: Seq<u64>,
    pt_a: &Plaintext,
    seed_a: Seq<u8>,
    words_a: Seq<u64>,
    pt_b: &Plaintext,
    seed_b: Seq<u8>,
    words_b: Seq<u64>,
)
    requires
        product_setting(sk, secret_words, key, key_seed, key_words, pt_a, pt_b),
    ensures
        ({
            let sp = fresh_scaled_product(
                sk,
                secret_words,
                key_words,
                pt_a,
                seed_a,
                words_a,
                pt_b,
                seed_b,
                words_b,
            );
            product_limbs(
                sk.encryption(pt_a, seed_a, words_a),
                sk.encryption(pt_b, seed_b, words_b),
                sk.parameters().mul_2_params(),
                key.body_limbs(),
                key.mask_limbs(),
            ) == seq![
                switched(
                    forward_rows(residues(sp.d0(), sp.d.m), sp.d.m, sp.d.n),
                    residues(sp.d2(), sp.d.m),
                    key.body_limbs(),
                    sp.d.m,
                    sp.d.n,
                    sp.d.m.len(),
                ),
                switched(
                    forward_rows(residues(sp.d1(), sp.d.m), sp.d.m, sp.d.n),
                    residues(sp.d2(), sp.d.m),
                    key.mask_limbs(),
                    sp.d.m,
                    sp.d.n,
                    sp.d.m.len(),
                ),
            ]
        }),
{
    let par = sk.parameters();
    let m = par.moduli()@;
    let n = par.degree() as nat;
    let mp = par.mul_2_params();
    let em = mp.extended().moduli()@;
    let sp = fresh_scaled_product(
        sk,
        secret_words,
        key_words,
        pt_a,
        seed_a,
        words_a,
        pt_b,
        seed_b,
        words_b,
    );
    let d = sp.d;
    let a = sk.encryption(pt_a, seed_a, words_a);
    let b = sk.encryption(pt_b, seed_b, words_b);
    lemma_fresh_scaled_shaped(
        sk,
        secret_words,
        key,
        key_seed,
        key_words,
        pt_a,
        seed_a,
        words_a,
        pt_b,
        seed_b,
        words_b,
    );
    lemma_scaled_shape(sp);
    lemma_fresh_carries(sk, pt_a, seed_a, words_a);
    lemma_fresh_carries(sk, pt_b, seed_b, words_b);
    lemma_carried(a[0], m, em, n);
    lemma_carried(a[1], m, em, n);
    let p = product_of(sp.ext);
    let q = product_of(m);
    lemma_scaled_rows(backward_rows(b[0], m, n), m, em, n, p, q);
    lemma_scaled_rows(backward_rows(b[1], m, n), m, em, n, p, q);
    lemma_tensor_rows(d.a0, d.a1, sp.c0(), sp.c1(), em, n);
    lemma_scaled_lowered(sp);
    let ext = tensor(
        seq![carried(a[0], mp.extender_self()), carried(a[1], mp.extender_self())],
        seq![carried(b[0], mp.extender_other()), carried(b[1], mp.extender_other())],
        em,
    );
    assert(carried(a[0], mp.extender_self()) == forward_rows(residues(d.a0, em), em, n));
    assert(carried(a[1], mp.extender_self()) == forward_rows(residues(d.a1, em), em, n));
    assert(carried(b[0], mp.extender_other()) == forward_rows(residues(sp.c0(), em), em, n));
    assert(carried(b[1], mp.extender_other()) == forward_rows(residues(sp.c1(), em), em, n));
    assert(ext[0] == forward_rows(residues(sp.z0(), em), em, n));
    assert(ext[1] == forward_rows(residues(sp.z1(), em), em, n));
    assert(ext[2] == forward_rows(residues(sp.z2(), em), em, n));
    assert(lowered(ext[0], mp.down_scaler()) == residues(sp.d0(), m));
    assert(lowered(ext[1], mp.down_scaler()) == residues(sp.d1(), m));
    assert(lowered(ext[2], mp.down_scaler()) == residues(sp.d2(), m));
}

/// The relinearized product of two fresh encryptions through the ring of
/// the second multiplication decrypts to the negacyclic product of the
/// coefficients of their plaintexts modulo `t`, where the noise of the
/// product is within the budget.
pub proof fn lemma_relinearized_scaled_product_decrypts(
    sk: &SecretKey,
    secret_words: Seq<u64>,
    key: &KeySwitchingKey,
    key_seed: Seq<u8>,
    key_words: Seq<u64>,
    pt_a: &Plaintext,
    seed_a: Seq<u8>,
    words_a: Seq<u64>,
    pt_b: &Plaintext,
    seed_b: Seq<u8>,
    words_b: Seq<u64>,
    ct: &Ciphertext,
)
    requires
        product_setting(sk, secret_words, key, key_seed, key_words, pt_a, pt_b),
        ct.limbs() == product_limbs(
            sk.encryption(pt_a, seed_a, words_a),
            sk.encryption(pt_b, seed_b, words_b),
            sk.parameters().mul_2_params(),
            key.body_limbs(),
            key.mask_limbs(),
        ),
        sk.parameters().plaintext_modulus() < sk.parameters().moduli()@[0],
        within_budget(
            fresh_scaled_product(
                sk,
                secret_words,
                key_words,
                pt_a,
                seed_a,
                words_a,
                pt_b,
                seed_b,
                words_b,
            ).e_out(),
            fresh_scaled_product(
                sk,
                secret_words,
                key_words,
                pt_a,
                seed_a,
                words_a,
                pt_b,
                seed_b,
                words_b,
            ).d.m_out(),
            sk.parameters().plaintext_modulus() as int,
            product_of(sk.parameters().moduli()@) as int,
        ),
    ensures
        sk.decryption(ct) == negacyclic_product(
            pt_a.coefficients(),
            pt_b.coefficients(),
            sk.parameters().plaintext_modulus() as int,
        ),
{
    let sp = fresh_scaled_product(
        sk,
        secret_words,
        key_words,
        pt_a,
        seed_a,
        words_a,
        pt_b,
        seed_b,
        words_b,
    );
    let d = sp.d;
    lemma_fresh_scaled_shaped(
        sk,
        secret_words,
        key,
        key_seed,
        key_words,
        pt_a,
        seed_a,
        words_a,
        pt_b,
        seed_b,
        words_b,
    );
    lemma_fresh_scaled_limbs(
        sk,
        secret_words,
        key,
        key_seed,
        key_words,
        pt_a,
        seed_a,
        words_a,
        pt_b,
        seed_b,
        words_b,
    );
    lemma_scaled_shape(sp);
    lemma_folded_phase(sk, secret_words, key, key_seed, key_words, sp.d0(), sp.d1(), sp.d2());
    lemma_scaled_carried(sp);
    lemma_carried_product_decrypts(sk, pt_a, pt_b, ct, d, sp.e_out(), sp.phase_out());
}

/// A sufficient budget for the relinearized product through the ring of
/// the second multiplication: where the ciphertext modulus leaves room for
/// the bound on the noise of the product, the noise of the product of two
/// fresh encryptions is within the budget.
pub proof fn lemma_relinearized_scaled_product_budget(
    sk: &SecretKey,
    secret_words: Seq<u64>,
    key: &KeySwitchingKey,
    key_seed: Seq<u8>,
    key_words: Seq<u64>,
    pt_a: &Plaintext,
    seed_a: Seq<u8>,
    words_a: Seq<u64>,
    pt_b: &Plaintext,
    seed_b: Seq<u8>,
    words_b: Seq<u64>,
)
    requires
        product_setting(sk, secret_words, key, key_seed, key_words, pt_a, pt_b),
        fresh_scaled_product(
            sk,
            secret_words,
            key_words,
            pt_a,
            seed_a,
            words_a,
            pt_b,
            seed_b,
            words_b,
        ).within_product_budget(),
    ensures
        within_budget(
            fresh_scaled_product(
                sk,
                secret_words,
                key_words,
                pt_a,
                seed_a,
                words_a,
                pt_b,
                seed_b,
                words_b,
            ).e_out(),
            fresh_scaled_product(
                sk,
                secret_words,
                key_words,
                pt_a,
                seed_a,
                words_a,
                pt_b,
                seed_b,
                words_b,
            ).d.m_out(),
            sk.parameters().plaintext_modulus() as int,
            product_of(sk.parameters().moduli()@) as int,
        ),
{
    let par = sk.parameters();
    let ti = par.plaintext_modulus() as int;
    let q = product_of(par.moduli()@) as int;
    let sp = fresh_scaled_product(
        sk,
        secret_words,
        key_words,
        pt_a,
        seed_a,
        words_a,
        pt_b,
        seed_b,
        words_b,
    );
    lemma_fresh_scaled_shaped(
        sk,
        secret_words,
        key,
        key_seed,
        key_words,
        pt_a,
        seed_a,
        words_a,
        pt_b,
        seed_b,
        words_b,
    );
    assert forall|k: int| 0 <= k < sp.e_out().len() implies -q <= 2 * (ti
        * #[trigger] sp.e_out()[k] - sp.d.m_out()[k]) < q by {
        lemma_scaled_within_budget(sp, k);
    }
}

/// The relinearized product of two fresh encryptions of encoded values
/// through the ring of the second multiplication decrypts and decodes to
/// the product of the values: their negacyclic product in the coefficient
/// encoding, their product slot by slot in the batched one, where the
/// noise of the product is within the budget.
pub proof fn lemma_relinearized_scaled_product_decodes(
    sk: &SecretKey,
    secret_words: Seq<u64>,
    key: &KeySwitchingKey,
    key_seed: Seq<u8>,
    key_words: Seq<u64>,
    pt_a: &Plaintext,
    seed_a: Seq<u8>,
    words_a: Seq<u64>,
    pt_b: &Plaintext,
    seed_b: Seq<u8>,
    words_b: Seq<u64>,
    ct: &Ciphertext,
    a: Seq<u64>,
    b: Seq<u64>,
    encoding: Encoding,
)
    requires
        product_setting(sk, secret_words, key, key_seed, key_words, pt_a, pt_b),
        encoding == Encoding::Simd ==> sk.parameters().spec_op() is Some,
        a.len() <= sk.parameters().degree(),
        b.len() <= sk.parameters().degree(),
        pt_a.coefficients() == encoded_values(
            a,
            encoding,
            sk.parameters().index_map()@,
            sk.parameters().plaintext_modulus() as int,
            sk.parameters().degree() as nat,
        ),
        pt_b.coefficients() == encoded_values(
            b,
            encoding,
            sk.parameters().index_map()@,
            sk.parameters().plaintext_modulus() as int,
            sk.parameters().degree() as nat,
        ),
        ct.limbs() == product_limbs(
            sk.encryption(pt_a, seed_a, words_a),
            sk.encryption(pt_b, seed_b, words_b),
            sk.parameters().mul_2_params(),
            key.body_limbs(),
            key.mask_limbs(),
        ),
        sk.parameters().plaintext_modulus() < sk.parameters().moduli()@[0],
        within_budget(
            fresh_scaled_product(
                sk,
                secret_words,
                key_words,
                pt_a,
                seed_a,
                words_a,
                pt_b,
                seed_b,
                words_b,
            ).e_out(),
            fresh_scaled_product(
                sk,
                secret_words,
                key_words,
                pt_a,
                seed_a,
                words_a,
                pt_b,
                seed_b,
                words_b,
            ).d.m_out(),
            sk.parameters().plaintext_modulus() as int,
            product_of(sk.parameters().moduli()@) as int,
        ),
    ensures
        decoded_values(
            sk.decryption(ct),
            encoding,
            sk.parameters().index_map()@,
            sk.parameters().plaintext_modulus() as int,
            sk.parameters().degree() as nat,
        ) == product_values(
            a,
            b,
            encoding,
            sk.parameters().plaintext_modulus() as int,
            sk.parameters().degree() as nat,
        ),
{
    let par = sk.parameters();
    lemma_parameters_ready(par, encoding);
    lemma_relinearized_scaled_product_decrypts(
        sk,
        secret_words,
        key,
        key_seed,
        key_words,
        pt_a,
        seed_a,
        words_a,
        pt_b,
        seed_b,
        words_b,
        ct,
    );
    lemma_decode_product(
        a,
        b,
        encoding,
        par.index_map()@,
        par.plaintext_modulus() as int,
        par.degree() as nat,
    );
}

} // verus!

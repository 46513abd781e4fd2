//! The product of two fresh encryptions without relinearization, a
//! ciphertext of three ring elements, decrypts to the product of their
//! plaintexts.

use crate::batching::lemma_parameters_ready;
use crate::ciphertext::Ciphertext;
use crate::convolution::negacyclic_product;
use crate::correctness::{lemma_fresh_carries, within_budget};
use crate::extension::lemma_carried;
use crate::integer_ring::{lemma_residues_shape, residues};
use crate::multiply::{carried, convolution_at, convolved_limbs, lowered};
use crate::plaintext::{decoded_values, encoded_values, Encoding, Plaintext};
use crate::product::{lemma_decode_product, product_values};
use crate::relinearization::lemma_mul_rows_shape;
use crate::relinearized::{
    fresh_operands, lemma_carried_product_decrypts, lemma_fresh_shaped, lemma_small_rows,
    operand_setting,
};
use crate::rns::product_of;
use crate::rows_algebra::{lemma_forward_rows_shape, lemma_zero_rows_left};
use crate::rq::{add_rows, forward_rows, mul_rows};
use crate::secret_key::SecretKey;
use crate::tensor::{
    lemma_folding_bound, lemma_lowered_rows, lemma_phase_of_three, lemma_product_carried,
    lemma_product_within_budget, lemma_tensor_bounds, lemma_tensor_rows, phase_of_three,
    ProductData,
};
use vstd::arithmetic::div_mod::*;
use vstd::prelude::*;

verus! {

/// What the product of two fresh encryptions without relinearization is
/// made of: the data of their product through the ring of the first
/// multiplication, with no noise of a key.
pub open spec fn fresh_quadratic(
    sk: &SecretKey,
    secret_words: Seq<u64>,
    pt_a: &Plaintext,
    seed_a: Seq<u8>,
    words_a: Seq<u64>,
    pt_b: &Plaintext,
    seed_b: Seq<u8>,
    words_b: Seq<u64>,
) -> ProductData {
    let par = sk.parameters();
    let d = fresh_operands(
        sk,
        secret_words,
        Seq::<u64>::empty(),
        pt_a,
        seed_a,
        words_a,
        pt_b,
        seed_b,
        words_b,
        par.mul_1_params().extended().moduli()@,
    );
    ProductData {
        key_noise: Seq::new(
            par.moduli()@.len(),
            |l: int| Seq::new(par.degree() as nat, |j: int| 0int),
        ),
        ..d
    }
}

/// The data of the product of two fresh encryptions without
/// relinearization are ready, and its operands carry their messages with
/// their noises.
pub proof fn lemma_quadratic_ready(
    sk: &SecretKey,
    secret_words: Seq<u64>,
    pt_a: &Plaintext,
    seed_a: Seq<u8>,
    words_a: Seq<u64>,
    pt_b: &Plaintext,
    seed_b: Seq<u8>,
    words_b: Seq<u64>,
)
    requires
        operand_setting(sk, secret_words, pt_a, pt_b),
        fresh_quadratic(
            sk,
            secret_words,
            pt_a,
            seed_a,
            words_a,
            pt_b,
            seed_b,
            words_b,
        ).extension_has_room(),
    ensures
        fresh_quadratic(
            sk,
            secret_words,
            pt_a,
            seed_a,
            words_a,
            pt_b,
            seed_b,
            words_b,
        ).ready(),
        fresh_quadratic(
            sk,
            secret_words,
            pt_a,
            seed_a,
            words_a,
            pt_b,
            seed_b,
            words_b,
        ).linked(),
{
    let par = sk.parameters();
    let em = par.mul_1_params().extended().moduli()@;
    par.mul_1_params().extended().lemma_wf();
    lemma_fresh_shaped(
        sk,
        secret_words,
        Seq::<u64>::empty(),
        pt_a,
        seed_a,
        words_a,
        pt_b,
        seed_b,
        words_b,
        em,
    );
}

/// The ring elements of the product of two fresh encryptions without
/// relinearization are the three ring elements of the product, brought
/// down and transformed.
pub proof fn lemma_quadratic_limbs(
    sk: &SecretKey,
    secret_words: Seq<u64>,
    pt_a: &Plaintext,
    seed_a: Seq<u8>,
    words_a: Seq<u64>,
    pt_b: &Plaintext,
    seed_b: Seq<u8>,
    words_b: Seq<u64>,
)
    requires
        operand_setting(sk, secret_words, pt_a, pt_b),
        fresh_quadratic(
            sk,
            secret_words,
            pt_a,
            seed_a,
            words_a,
            pt_b,
            seed_b,
            words_b,
        ).ready(),
    ensures
        ({
            let d = fresh_quadratic(
                sk,
                secret_words,
                pt_a,
                seed_a,
                words_a,
                pt_b,
                seed_b,
                words_b,
            );
            convolved_limbs(
                sk.encryption(pt_a, seed_a, words_a),
                sk.encryption(pt_b, seed_b, words_b),
                sk.parameters().mul_1_params(),
            ) == seq![
                forward_rows(residues(d.d0(), d.m), d.m, d.n),
                forward_rows(residues(d.d1(), d.m), d.m, d.n),
                forward_rows(residues(d.d2(), d.m), d.m, d.n),
            ]
        }),
{
    let par = sk.parameters();
    let m = par.moduli()@;
    let n = par.degree() as nat;
    let mp = par.mul_1_params();
    let em = mp.extended().moduli()@;
    let d = fresh_quadratic(
        sk,
        secret_words,
        pt_a,
        seed_a,
        words_a,
        pt_b,
        seed_b,
        words_b,
    );
    let a = sk.encryption(pt_a, seed_a, words_a);
    let b = sk.encryption(pt_b, seed_b, words_b);
    lemma_fresh_carries(sk, pt_a, seed_a, words_a);
    lemma_fresh_carries(sk, pt_b, seed_b, words_b);
    lemma_carried(a[0], m, em, n);
    lemma_carried(a[1], m, em, n);
    lemma_carried(b[0], m, em, n);
    lemma_carried(b[1], m, em, n);
    lemma_tensor_rows(d.a0, d.a1, d.b0, d.b1, em, n);
    lemma_lowered_rows(d);
    let ea = Seq::new(a.len(), |i: int| carried(a[i], mp.extender_self()));
    let eb = Seq::new(b.len(), |i: int| carried(b[i], mp.extender_self()));
    let fa0 = forward_rows(residues(d.a0, em), em, n);
    let fa1 = forward_rows(residues(d.a1, em), em, n);
    let fb0 = forward_rows(residues(d.b0, em), em, n);
    let fb1 = forward_rows(residues(d.b1, em), em, n);
    assert(ea[0] == fa0);
    assert(ea[1] == fa1);
    assert(eb[0] == fb0);
    assert(eb[1] == fb1);
    lemma_residues_shape(d.a0, em, n);
    lemma_residues_shape(d.a1, em, n);
    lemma_forward_rows_shape(residues(d.a0, em), em, n);
    lemma_forward_rows_shape(residues(d.a1, em), em, n);
    lemma_mul_rows_shape(fa0, fb0, em, n);
    lemma_mul_rows_shape(fa0, fb1, em, n);
    lemma_mul_rows_shape(fa1, fb1, em, n);
    lemma_zero_rows_left(mul_rows(fa0, fb0, em), em, n);
    lemma_zero_rows_left(mul_rows(fa0, fb1, em), em, n);
    lemma_zero_rows_left(mul_rows(fa1, fb1, em), em, n);
    reveal_with_fuel(convolution_at, 3);
    let x0 = convolution_at(ea, eb, em, n, 0, 2);
    let x1 = convolution_at(ea, eb, em, n, 1, 2);
    let x2 = convolution_at(ea, eb, em, n, 2, 2);
    assert(x0 == mul_rows(fa0, fb0, em));
    assert(x1 == add_rows(mul_rows(fa0, fb1, em), mul_rows(fa1, fb0, em), em));
    assert(x2 == mul_rows(fa1, fb1, em));
    assert(lowered(x0, mp.down_scaler()) == residues(d.d0(), m));
    assert(lowered(x1, mp.down_scaler()) == residues(d.d1(), m));
    assert(lowered(x2, mp.down_scaler()) == residues(d.d2(), m));
    let got = convolved_limbs(a, b, mp);
    let want = seq![
        forward_rows(residues(d.d0(), m), m, n),
        forward_rows(residues(d.d1(), m), m, n),
        forward_rows(residues(d.d2(), m), m, n),
    ];
    assert(got.len() == 3);
    assert(got[0] == want[0]);
    assert(got[1] == want[1]);
    assert(got[2] == want[2]);
    assert(got =~= want);
}

/// The product of two fresh encryptions without relinearization decrypts
/// to the negacyclic product of the coefficients of their plaintexts
/// modulo `t`: where the extended ring has room for the product of the
/// phases, and the noise of the product is within the budget.
pub proof fn lemma_quadratic_product_decrypts(
    sk: &SecretKey,
    secret_words: Seq<u64>,
    pt_a: &Plaintext,
    seed_a: Seq<u8>,
    words_a: Seq<u64>,
    pt_b: &Plaintext,
    seed_b: Seq<u8>,
    words_b: Seq<u64>,
    ct: &Ciphertext,
)
    requires
        operand_setting(sk, secret_words, pt_a, pt_b),
        ct.limbs() == convolved_limbs(
            sk.encryption(pt_a, seed_a, words_a),
            sk.encryption(pt_b, seed_b, words_b),
            sk.parameters().mul_1_params(),
        ),
        sk.parameters().plaintext_modulus() < sk.parameters().moduli()@[0],
        fresh_quadratic(
            sk,
            secret_words,
            pt_a,
            seed_a,
            words_a,
            pt_b,
            seed_b,
            words_b,
        ).extension_has_room(),
        within_budget(
            fresh_quadratic(
                sk,
                secret_words,
                pt_a,
                seed_a,
                words_a,
                pt_b,
                seed_b,
                words_b,
            ).e_out(),
            fresh_quadratic(
                sk,
                secret_words,
                pt_a,
                seed_a,
                words_a,
                pt_b,
                seed_b,
                words_b,
            ).m_out(),
            sk.parameters().plaintext_modulus() as int,
            product_of(sk.parameters().moduli()@) as int,
        ),
    ensures
        sk.decryption(ct) == negacyclic_product(
            pt_a.coefficients(),
            pt_b.coefficients(),
            sk.parameters().plaintext_modulus() as int,
        ),
{
    let par = sk.parameters();
    let m = par.moduli()@;
    let n = par.degree() as nat;
    let v = par.variance() as nat;
    let d = fresh_quadratic(
        sk,
        secret_words,
        pt_a,
        seed_a,
        words_a,
        pt_b,
        seed_b,
        words_b,
    );
    lemma_quadratic_ready(
        sk,
        secret_words,
        pt_a,
        seed_a,
        words_a,
        pt_b,
        seed_b,
        words_b,
    );
    lemma_quadratic_limbs(
        sk,
        secret_words,
        pt_a,
        seed_a,
        words_a,
        pt_b,
        seed_b,
        words_b,
    );
    lemma_tensor_bounds(d);
    lemma_small_rows(secret_words, v, m, n);
    lemma_phase_of_three(d.d0(), d.d1(), d.d2(), d.s, m, n);
    // no key adds noise
    lemma_folding_bound(d.d2(), d.key_noise, m, n, 0, m.len());
    let whole = phase_of_three(d.d0(), d.d1(), d.d2(), d.s);
    let fold = d.folding_noise(m.len());
    assert(m.len() * (n * (0x4000_0000_0000_0000 * 0)) == 0) by (nonlinear_arith);
    assert forall|k: int| 0 <= k < n implies d.phase_out()[k] == whole[k] by {
        assert(fold[k] == 0);
    }
    assert(d.phase_out() =~= whole);
    lemma_product_carried(d);
    lemma_carried_product_decrypts(sk, pt_a, pt_b, ct, d, d.e_out(), d.phase_out());
}

/// A sufficient budget for the product without relinearization: where the
/// ciphertext modulus leaves room for the bound on the noise of the
/// product, the noise of the product of two fresh encryptions is within
/// the budget.
pub proof fn lemma_quadratic_product_budget(
    sk: &SecretKey,
    secret_words: Seq<u64>,
    pt_a: &Plaintext,
    seed_a: Seq<u8>,
    words_a: Seq<u64>,
    pt_b: &Plaintext,
    seed_b: Seq<u8>,
    words_b: Seq<u64>,
)
    requires
        operand_setting(sk, secret_words, pt_a, pt_b),
        fresh_quadratic(
            sk,
            secret_words,
            pt_a,
            seed_a,
            words_a,
            pt_b,
            seed_b,
            words_b,
        ).extension_has_room(),
        fresh_quadratic(
            sk,
            secret_words,
            pt_a,
            seed_a,
            words_a,
            pt_b,
            seed_b,
            words_b,
        ).within_product_budget(),
    ensures
        within_budget(
            fresh_quadratic(
                sk,
                secret_words,
                pt_a,
                seed_a,
                words_a,
                pt_b,
                seed_b,
                words_b,
            ).e_out(),
            fresh_quadratic(
                sk,
                secret_words,
                pt_a,
                seed_a,
                words_a,
                pt_b,
                seed_b,
                words_b,
            ).m_out(),
            sk.parameters().plaintext_modulus() as int,
            product_of(sk.parameters().moduli()@) as int,
        ),
{
    let par = sk.parameters();
    let ti = par.plaintext_modulus() as int;
    let q = product_of(par.moduli()@) as int;
    let d = fresh_quadratic(
        sk,
        secret_words,
        pt_a,
        seed_a,
        words_a,
        pt_b,
        seed_b,
        words_b,
    );
    lemma_quadratic_ready(
        sk,
        secret_words,
        pt_a,
        seed_a,
        words_a,
        pt_b,
        seed_b,
        words_b,
    );
    assert forall|k: int| 0 <= k < d.e_out().len() implies -q <= 2 * (ti * #[trigger] d.e_out()[k]
        - d.m_out()[k]) < q by {
        lemma_product_within_budget(d, k);
    }
}

/// The product of two fresh encryptions of encoded values without
/// relinearization decrypts and decodes to the product of the values:
/// their negacyclic product in the coefficient encoding, their product
/// slot by slot in the batched one, where the extended ring has room for
/// the product of the phases, and the noise of the product is within the
/// budget.
pub proof fn lemma_quadratic_product_decodes(
    sk: &SecretKey,
    secret_words: Seq<u64>,
    pt_a: &Plaintext,
    seed_a: Seq<u8>,
    words_a: Seq<u64>,
    pt_b: &Plaintext,
    seed_b: Seq<u8>,
    words_b: Seq<u64>,
    ct: &Ciphertext,
    a: Seq<u64>,
    b: Seq<u64>,
    encoding: Encoding,
)
    requires
        operand_setting(sk, secret_words, pt_a, pt_b),
        encoding == Encoding::Simd ==> sk.parameters().spec_op() is Some,
        a.len() <= sk.parameters().degree(),
        b.len() <= sk.parameters().degree(),
        pt_a.coefficients() == encoded_values(
            a,
            encoding,
            sk.parameters().index_map()@,
            sk.parameters().plaintext_modulus() as int,
            sk.parameters().degree() as nat,
        ),
        pt_b.coefficients() == encoded_values(
            b,
            encoding,
            sk.parameters().index_map()@,
            sk.parameters().plaintext_modulus() as int,
            sk.parameters().degree() as nat,
        ),
        ct.limbs() == convolved_limbs(
            sk.encryption(pt_a, seed_a, words_a),
            sk.encryption(pt_b, seed_b, words_b),
            sk.parameters().mul_1_params(),
        ),
        sk.parameters().plaintext_modulus() < sk.parameters().moduli()@[0],
        fresh_quadratic(
            sk,
            secret_words,
            pt_a,
            seed_a,
            words_a,
            pt_b,
            seed_b,
            words_b,
        ).extension_has_room(),
        within_budget(
            fresh_quadratic(
                sk,
                secret_words,
                pt_a,
                seed_a,
                words_a,
                pt_b,
                seed_b,
                words_b,
            ).e_out(),
            fresh_quadratic(
                sk,
                secret_words,
                pt_a,
                seed_a,
                words_a,
                pt_b,
                seed_b,
                words_b,
            ).m_out(),
            sk.parameters().plaintext_modulus() as int,
            product_of(sk.parameters().moduli()@) as int,
        ),
    ensures
        decoded_values(
            sk.decryption(ct),
            encoding,
            sk.parameters().index_map()@,
            sk.parameters().plaintext_modulus() as int,
            sk.parameters().degree() as nat,
        ) == product_values(
            a,
            b,
            encoding,
            sk.parameters().plaintext_modulus() as int,
            sk.parameters().degree() as nat,
        ),
{
    let par = sk.parameters();
    lemma_parameters_ready(par, encoding);
    lemma_quadratic_product_decrypts(
        sk,
        secret_words,
        pt_a,
        seed_a,
        words_a,
        pt_b,
        seed_b,
        words_b,
        ct,
    );
    lemma_decode_product(
        a,
        b,
        encoding,
        par.index_map()@,
        par.plaintext_modulus() as int,
        par.degree() as nat,
    );
}

} // verus!

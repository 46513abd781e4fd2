//! The encodings of plaintexts: decoding undoes encoding, and decoding is
//! linear, so that sums, differences and opposites of ciphertexts decode
//! to the sums, differences and opposites of the encoded values, in the
//! coefficient encoding and in the batched one.

use crate::ciphertext::{add_limbs, neg_limbs, sub_limbs, Ciphertext};
use crate::correctness::{
    comb_limbs, combined_message, combined_noise, lemma_combination_decrypts, lemma_fresh_budget,
    lemma_fresh_carries, within_budget,
};
use crate::ntt::{
    forward_transform, inv_twiddles, lemma_forward_backward, lemma_intt_shape, lemma_ntt_shape,
    lemma_odd, primitive_root, twiddles,
};
use crate::ntt_linear::{lemma_ntt_linear, lincomb};
use crate::parameters::BfvParameters;
use crate::plaintext::{
    decoded_values, encoded_values, gathered, lemma_scattered_shape, padded_values, scattered,
    Encoding, Plaintext,
};
use crate::primes::is_power_of_two;
use crate::rns::product_of;
use crate::rows_algebra::{
    lemma_add_rows_is_lincomb, lemma_neg_rows_is_lincomb, lemma_sub_rows_is_lincomb,
};
use crate::secret_key::SecretKey;
use crate::slots::injective;
use crate::zq::{add_seq, is_reduced, neg_seq, sub_seq};
use vstd::arithmetic::div_mod::*;
use vstd::prelude::*;

verus! {

/// The plaintext modulus `t`, the degree `n` and the order of the slots
/// `map` allow the encoding: every encoding needs `t > 1` and `n` a power
/// of two; the batched one needs a transform modulo `t` and a `map` that
/// gives each slot a coefficient index of its own.
pub open spec fn encoding_ready(encoding: Encoding, map: Seq<usize>, t: int, n: nat) -> bool {
    &&& 2 <= t < 0x4000_0000_0000_0000
    &&& n >= 1
    &&& is_power_of_two(n)
    &&& encoding == Encoding::Simd ==> {
        &&& t % 2 == 1
        &&& primitive_root(t, n) is Some
        &&& map.len() == n
        &&& injective(map)
        &&& forall|i: int| 0 <= i < n ==> (#[trigger] map[i]) < n
    }
}

/// What scattering leaves at the index `x`: the value of the slot that has
/// this index, or what was there where no slot has it.
pub proof fn lemma_scattered_entry(
    base: Seq<u64>,
    values: Seq<u64>,
    map: Seq<usize>,
    t: int,
    k: nat,
    x: int,
)
    requires
        t > 0,
        is_reduced(base, t),
        k <= values.len(),
        k <= map.len(),
        injective(map),
        forall|i: int| 0 <= i < k ==> (#[trigger] map[i]) < base.len(),
        0 <= x < base.len(),
    ensures
        forall|i: int|
            0 <= i < k && map[i] == x ==> scattered(base, values, map, t, k)[x] == (
            #[trigger] values[i] as int % t) as u64,
        (forall|i: int| 0 <= i < k ==> map[i] != x) ==> scattered(base, values, map, t, k)[x]
            == base[x],
    decreases k,
{
    if k > 0 {
        lemma_scattered_entry(base, values, map, t, (k - 1) as nat, x);
        lemma_scattered_shape(base, values, map, t, (k - 1) as nat);
        let before = scattered(base, values, map, t, (k - 1) as nat);
        assert(map[k - 1] < base.len());
        if map[k - 1] == x {
            assert forall|i: int| 0 <= i < k && map[i] == x implies i == k - 1 by {
                if i < k - 1 {
                    assert(map[i] != map[k - 1]);
                }
            }
        }
    }
}

/// Gathering undoes scattering: the slots hold the values, reduced, and
/// zeros after them.
pub proof fn lemma_gather_scatter(values: Seq<u64>, map: Seq<usize>, t: int, n: nat)
    requires
        t > 0,
        values.len() <= n,
        map.len() == n,
        injective(map),
        forall|i: int| 0 <= i < n ==> (#[trigger] map[i]) < n,
    ensures
        gathered(scattered(Seq::new(n, |j: int| 0u64), values, map, t, values.len()), map)
            == padded_values(values, t, n),
{
    let base = Seq::new(n, |j: int| 0u64);
    let s = scattered(base, values, map, t, values.len());
    let g = gathered(s, map);
    let want = padded_values(values, t, n);
    assert forall|i: int| 0 <= i < n implies g[i] == want[i] by {
        lemma_scattered_entry(base, values, map, t, values.len(), map[i] as int);
        if i >= values.len() {
            assert forall|a: int| 0 <= a < values.len() implies map[a] != map[i] by {
                assert(a < i);
            }
        }
    }
    assert(g =~= want);
}

/// Decoding undoes encoding: the values come back reduced, with zeros up
/// to the degree.
pub proof fn lemma_decode_encode(
    values: Seq<u64>,
    encoding: Encoding,
    map: Seq<usize>,
    t: int,
    n: nat,
)
    requires
        encoding_ready(encoding, map, t, n),
        values.len() <= n,
    ensures
        decoded_values(encoded_values(values, encoding, map, t, n), encoding, map, t, n)
            == padded_values(values, t, n),
{
    match encoding {
        Encoding::Poly => {},
        Encoding::Simd => {
            let base = Seq::new(n, |j: int| 0u64);
            let s = scattered(base, values, map, t, values.len());
            lemma_scattered_shape(base, values, map, t, values.len());
            lemma_forward_backward(s, t, n);
            lemma_gather_scatter(values, map, t, n);
        },
    }
}

/// The coefficients that hold values are residues, as many as the degree.
pub proof fn lemma_encoded_shape(
    values: Seq<u64>,
    encoding: Encoding,
    map: Seq<usize>,
    t: int,
    n: nat,
)
    requires
        encoding_ready(encoding, map, t, n),
        values.len() <= n,
    ensures
        encoded_values(values, encoding, map, t, n).len() == n,
        is_reduced(encoded_values(values, encoding, map, t, n), t),
{
    match encoding {
        Encoding::Poly => {
            assert forall|j: int| 0 <= j < n implies (#[trigger] padded_values(values, t, n)[j])
                < t by {
                if j < values.len() {
                    lemma_mod_bound(values[j] as int, t);
                }
            }
        },
        Encoding::Simd => {
            let base = Seq::new(n, |j: int| 0u64);
            let s = scattered(base, values, map, t, values.len());
            lemma_scattered_shape(base, values, map, t, values.len());
            lemma_intt_shape(s, inv_twiddles(t, n), 1, t);
        },
    }
}

/// Decoding is linear: a combination of coefficients decodes to the
/// combination of what they decode to.
pub proof fn lemma_decode_linear(
    x: Seq<u64>,
    y: Seq<u64>,
    a: int,
    b: int,
    encoding: Encoding,
    map: Seq<usize>,
    t: int,
    n: nat,
)
    requires
        encoding_ready(encoding, map, t, n),
        x.len() == n,
        y.len() == n,
        is_reduced(x, t),
        is_reduced(y, t),
    ensures
        decoded_values(lincomb(x, y, a, b, t), encoding, map, t, n) == lincomb(
            decoded_values(x, encoding, map, t, n),
            decoded_values(y, encoding, map, t, n),
            a,
            b,
            t,
        ),
{
    match encoding {
        Encoding::Poly => {},
        Encoding::Simd => {
            let tw = twiddles(t, n);
            lemma_ntt_linear(x, y, a, b, tw, 1, t);
            lemma_ntt_shape(x, tw, 1, t);
            lemma_ntt_shape(y, tw, 1, t);
            let fx = forward_transform(x, t, n);
            let fy = forward_transform(y, t, n);
            assert(gathered(lincomb(fx, fy, a, b, t), map) =~= lincomb(
                gathered(fx, map),
                gathered(fy, map),
                a,
                b,
                t,
            ));
        },
    }
}

/// The parameters allow the coefficient encoding, and the batched one
/// where they hold a transform of the plaintext space.
pub proof fn lemma_parameters_ready(par: &BfvParameters, encoding: Encoding)
    requires
        par.wf(),
        encoding == Encoding::Simd ==> par.spec_op() is Some,
    ensures
        encoding_ready(
            encoding,
            par.index_map()@,
            par.plaintext_modulus() as int,
            par.degree() as nat,
        ),
{
    if encoding == Encoding::Simd {
        lemma_odd(par.plaintext_modulus() as int, par.degree() as nat);
    }
}

/// A combination of two fresh encryptions of encoded values decrypts and
/// decodes to the combination of the values modulo `t`, in either
/// encoding, where the combination of the noises is within the budget.
pub proof fn lemma_combination_decodes(
    sk: &SecretKey,
    pt_a: &Plaintext,
    pt_b: &Plaintext,
    ct: &Ciphertext,
    seed_a: Seq<u8>,
    words_a: Seq<u64>,
    seed_b: Seq<u8>,
    words_b: Seq<u64>,
    alpha: int,
    beta: int,
    a: Seq<u64>,
    b: Seq<u64>,
    encoding: Encoding,
)
    requires
        sk.wf(),
        pt_a.wf(),
        pt_b.wf(),
        sk.parameters().same_as(pt_a.parameters()),
        sk.parameters().same_as(pt_b.parameters()),
        encoding == Encoding::Simd ==> sk.parameters().spec_op() is Some,
        a.len() <= sk.parameters().degree(),
        b.len() <= sk.parameters().degree(),
        pt_a.coefficients() == encoded_values(
            a,
            encoding,
            sk.parameters().index_map()@,
            sk.parameters().plaintext_modulus() as int,
            sk.parameters().degree() as nat,
        ),
        pt_b.coefficients() == encoded_values(
            b,
            encoding,
            sk.parameters().index_map()@,
            sk.parameters().plaintext_modulus() as int,
            sk.parameters().degree() as nat,
        ),
        ct.limbs() == comb_limbs(
            sk.encryption(pt_a, seed_a, words_a),
            sk.encryption(pt_b, seed_b, words_b),
            alpha,
            beta,
            sk.parameters().moduli()@,
        ),
        sk.parameters().plaintext_modulus() < sk.parameters().moduli()@[0],
        within_budget(
            combined_noise(sk, words_a, words_b, alpha, beta),
            combined_message(sk, pt_a, pt_b, alpha, beta),
            sk.parameters().plaintext_modulus() as int,
            product_of(sk.parameters().moduli()@) as int,
        ),
    ensures
        decoded_values(
            sk.decryption(ct),
            encoding,
            sk.parameters().index_map()@,
            sk.parameters().plaintext_modulus() as int,
            sk.parameters().degree() as nat,
        ) == lincomb(
            padded_values(
                a,
                sk.parameters().plaintext_modulus() as int,
                sk.parameters().degree() as nat,
            ),
            padded_values(
                b,
                sk.parameters().plaintext_modulus() as int,
                sk.parameters().degree() as nat,
            ),
            alpha,
            beta,
            sk.parameters().plaintext_modulus() as int,
        ),
{
    let par = sk.parameters();
    let map = par.index_map()@;
    let t = par.plaintext_modulus() as int;
    let n = par.degree() as nat;
    lemma_parameters_ready(par, encoding);
    lemma_combination_decrypts(sk, pt_a, pt_b, ct, seed_a, words_a, seed_b, words_b, alpha, beta);
    let ca = pt_a.coefficients();
    let cb = pt_b.coefficients();
    assert(sk.decryption(ct) =~= lincomb(ca, cb, alpha, beta, t));
    lemma_decode_linear(ca, cb, alpha, beta, encoding, map, t, n);
    lemma_decode_encode(a, encoding, map, t, n);
    lemma_decode_encode(b, encoding, map, t, n);
}

/// The sum of two fresh encryptions of encoded values decrypts and decodes
/// to the sum of the values modulo `t`, in either encoding, where the
/// ciphertext modulus is at least `4 t (2 variance + 1)` and its first
/// prime exceeds `t`.
pub proof fn lemma_sum_decodes(
    sk: &SecretKey,
    pt_a: &Plaintext,
    pt_b: &Plaintext,
    ct: &Ciphertext,
    seed_a: Seq<u8>,
    words_a: Seq<u64>,
    seed_b: Seq<u8>,
    words_b: Seq<u64>,
    a: Seq<u64>,
    b: Seq<u64>,
    encoding: Encoding,
)
    requires
        sk.wf(),
        pt_a.wf(),
        pt_b.wf(),
        sk.parameters().same_as(pt_a.parameters()),
        sk.parameters().same_as(pt_b.parameters()),
        encoding == Encoding::Simd ==> sk.parameters().spec_op() is Some,
        a.len() <= sk.parameters().degree(),
        b.len() <= sk.parameters().degree(),
        pt_a.coefficients() == encoded_values(
            a,
            encoding,
            sk.parameters().index_map()@,
            sk.parameters().plaintext_modulus() as int,
            sk.parameters().degree() as nat,
        ),
        pt_b.coefficients() == encoded_values(
            b,
            encoding,
            sk.parameters().index_map()@,
            sk.parameters().plaintext_modulus() as int,
            sk.parameters().degree() as nat,
        ),
        ct.limbs() == add_limbs(
            sk.encryption(pt_a, seed_a, words_a),
            sk.encryption(pt_b, seed_b, words_b),
            sk.parameters().moduli()@,
        ),
        sk.parameters().plaintext_modulus() < sk.parameters().moduli()@[0],
        4 * sk.parameters().plaintext_modulus() * (2 * sk.parameters().variance() + 1)
            <= product_of(sk.parameters().moduli()@),
    ensures
        decoded_values(
            sk.decryption(ct),
            encoding,
            sk.parameters().index_map()@,
            sk.parameters().plaintext_modulus() as int,
            sk.parameters().degree() as nat,
        ) == add_seq(
            padded_values(
                a,
                sk.parameters().plaintext_modulus() as int,
                sk.parameters().degree() as nat,
            ),
            padded_values(
                b,
                sk.parameters().plaintext_modulus() as int,
                sk.parameters().degree() as nat,
            ),
            sk.parameters().plaintext_modulus() as int,
        ),
{
    let moduli = sk.parameters().moduli()@;
    let t = sk.parameters().plaintext_modulus() as int;
    let n = sk.parameters().degree() as nat;
    let la = sk.encryption(pt_a, seed_a, words_a);
    let lb = sk.encryption(pt_b, seed_b, words_b);
    lemma_fresh_carries(sk, pt_a, seed_a, words_a);
    lemma_fresh_carries(sk, pt_b, seed_b, words_b);
    assert(add_limbs(la, lb, moduli) =~= comb_limbs(la, lb, 1, 1, moduli)) by {
        lemma_add_rows_is_lincomb(la[0], lb[0], moduli);
        lemma_add_rows_is_lincomb(la[1], lb[1], moduli);
    }
    lemma_fresh_budget(sk, pt_a, pt_b, words_a, words_b, 1, 1);
    lemma_combination_decodes(
        sk,
        pt_a,
        pt_b,
        ct,
        seed_a,
        words_a,
        seed_b,
        words_b,
        1,
        1,
        a,
        b,
        encoding,
    );
    let pa = padded_values(a, t, n);
    let pb = padded_values(b, t, n);
    assert(lincomb(pa, pb, 1, 1, t) =~= add_seq(pa, pb, t)) by {
        assert forall|j: int| 0 <= j < n implies lincomb(pa, pb, 1, 1, t)[j] == add_seq(
            pa,
            pb,
            t,
        )[j] by {
            assert(1 * (pa[j] as int) + 1 * (pb[j] as int) == pa[j] + pb[j]);
        }
    }
}

/// The difference of two fresh encryptions of encoded values decrypts and
/// decodes to the difference of the values modulo `t`, in either encoding,
/// where the ciphertext modulus is at least `4 t (2 variance + 1)` and its
/// first prime exceeds `t`.
pub proof fn lemma_difference_decodes(
    sk: &SecretKey,
    pt_a: &Plaintext,
    pt_b: &Plaintext,
    ct: &Ciphertext,
    seed_a: Seq<u8>,
    words_a: Seq<u64>,
    seed_b: Seq<u8>,
    words_b: Seq<u64>,
    a: Seq<u64>,
    b: Seq<u64>,
    encoding: Encoding,
)
    requires
        sk.wf(),
        pt_a.wf(),
        pt_b.wf(),
        sk.parameters().same_as(pt_a.parameters()),
        sk.parameters().same_as(pt_b.parameters()),
        encoding == Encoding::Simd ==> sk.parameters().spec_op() is Some,
        a.len() <= sk.parameters().degree(),
        b.len() <= sk.parameters().degree(),
        pt_a.coefficients() == encoded_values(
            a,
            encoding,
            sk.parameters().index_map()@,
            sk.parameters().plaintext_modulus() as int,
            sk.parameters().degree() as nat,
        ),
        pt_b.coefficients() == encoded_values(
            b,
            encoding,
            sk.parameters().index_map()@,
            sk.parameters().plaintext_modulus() as int,
            sk.parameters().degree() as nat,
        ),
        ct.limbs() == sub_limbs(
            sk.encryption(pt_a, seed_a, words_a),
            sk.encryption(pt_b, seed_b, words_b),
            sk.parameters().moduli()@,
        ),
        sk.parameters().plaintext_modulus() < sk.parameters().moduli()@[0],
        4 * sk.parameters().plaintext_modulus() * (2 * sk.parameters().variance() + 1)
            <= product_of(sk.parameters().moduli()@),
    ensures
        decoded_values(
            sk.decryption(ct),
            encoding,
            sk.parameters().index_map()@,
            sk.parameters().plaintext_modulus() as int,
            sk.parameters().degree() as nat,
        ) == sub_seq(
            padded_values(
                a,
                sk.parameters().plaintext_modulus() as int,
                sk.parameters().degree() as nat,
            ),
            padded_values(
                b,
                sk.parameters().plaintext_modulus() as int,
                sk.parameters().degree() as nat,
            ),
            sk.parameters().plaintext_modulus() as int,
        ),
{
    let moduli = sk.parameters().moduli()@;
    let t = sk.parameters().plaintext_modulus() as int;
    let n = sk.parameters().degree() as nat;
    let la = sk.encryption(pt_a, seed_a, words_a);
    let lb = sk.encryption(pt_b, seed_b, words_b);
    lemma_fresh_carries(sk, pt_a, seed_a, words_a);
    lemma_fresh_carries(sk, pt_b, seed_b, words_b);
    assert(sub_limbs(la, lb, moduli) =~= comb_limbs(la, lb, 1, -1, moduli)) by {
        lemma_sub_rows_is_lincomb(la[0], lb[0], moduli);
        lemma_sub_rows_is_lincomb(la[1], lb[1], moduli);
    }
    lemma_fresh_budget(sk, pt_a, pt_b, words_a, words_b, 1, -1);
    lemma_combination_decodes(
        sk,
        pt_a,
        pt_b,
        ct,
        seed_a,
        words_a,
        seed_b,
        words_b,
        1,
        -1,
        a,
        b,
        encoding,
    );
    let pa = padded_values(a, t, n);
    let pb = padded_values(b, t, n);
    assert(lincomb(pa, pb, 1, -1, t) =~= sub_seq(pa, pb, t)) by {
        assert forall|j: int| 0 <= j < n implies lincomb(pa, pb, 1, -1, t)[j] == sub_seq(
            pa,
            pb,
            t,
        )[j] by {
            assert(1 * (pa[j] as int) + (-1) * (pb[j] as int) == pa[j] - pb[j]);
        }
    }
}

/// The opposite of a fresh encryption of encoded values decrypts and
/// decodes to the opposite of the values modulo `t`, in either encoding,
/// where the ciphertext modulus is at least `4 t (2 variance + 1)` and its
/// first prime exceeds `t`.
pub proof fn lemma_opposite_decodes(
    sk: &SecretKey,
    pt: &Plaintext,
    ct: &Ciphertext,
    seed: Seq<u8>,
    words: Seq<u64>,
    a: Seq<u64>,
    encoding: Encoding,
)
    requires
        sk.wf(),
        pt.wf(),
        sk.parameters().same_as(pt.parameters()),
        encoding == Encoding::Simd ==> sk.parameters().spec_op() is Some,
        a.len() <= sk.parameters().degree(),
        pt.coefficients() == encoded_values(
            a,
            encoding,
            sk.parameters().index_map()@,
            sk.parameters().plaintext_modulus() as int,
            sk.parameters().degree() as nat,
        ),
        ct.limbs() == neg_limbs(sk.encryption(pt, seed, words), sk.parameters().moduli()@),
        sk.parameters().plaintext_modulus() < sk.parameters().moduli()@[0],
        4 * sk.parameters().plaintext_modulus() * (2 * sk.parameters().variance() + 1)
            <= product_of(sk.parameters().moduli()@),
    ensures
        decoded_values(
            sk.decryption(ct),
            encoding,
            sk.parameters().index_map()@,
            sk.parameters().plaintext_modulus() as int,
            sk.parameters().degree() as nat,
        ) == neg_seq(
            padded_values(
                a,
                sk.parameters().plaintext_modulus() as int,
                sk.parameters().degree() as nat,
            ),
            sk.parameters().plaintext_modulus() as int,
        ),
{
    let moduli = sk.parameters().moduli()@;
    let t = sk.parameters().plaintext_modulus() as int;
    let n = sk.parameters().degree() as nat;
    let l = sk.encryption(pt, seed, words);
    lemma_fresh_carries(sk, pt, seed, words);
    assert(neg_limbs(l, moduli) =~= comb_limbs(l, l, -1, 0, moduli)) by {
        lemma_neg_rows_is_lincomb(l[0], moduli);
        lemma_neg_rows_is_lincomb(l[1], moduli);
    }
    lemma_fresh_budget(sk, pt, pt, words, words, -1, 0);
    lemma_combination_decodes(sk, pt, pt, ct, seed, words, seed, words, -1, 0, a, a, encoding);
    let pa = padded_values(a, t, n);
    assert(lincomb(pa, pa, -1, 0, t) =~= neg_seq(pa, t)) by {
        assert forall|j: int| 0 <= j < n implies lincomb(pa, pa, -1, 0, t)[j] == neg_seq(
            pa,
            t,
        )[j] by {
            assert((-1) * (pa[j] as int) + 0 * (pa[j] as int) == -(pa[j] as int));
        }
    }
}

} // verus!

//! A plaintext of zeros is neutral: added to a ciphertext, or subtracted
//! from it, it leaves every ring element as it was.

use crate::ciphertext::Ciphertext;
use crate::ntt::{inv_twiddles, twiddles};
use crate::ntt_linear::{constant_seq, lemma_intt_zero, lemma_ntt_constant, repeated};
use crate::plaintext::{encoded_values, padded_values, scattered, Encoding, Plaintext};
use crate::primes::is_power_of_two;
use crate::rows_algebra::lemma_valid_ring;
use crate::rq::{add_rows, forward_rows, mul_rows, sub_rows, valid_ring, value_rows, well_shaped, zero_rows};
use crate::zq::scale_seq;
use vstd::arithmetic::div_mod::*;
use vstd::prelude::*;

verus! {

/// No values are held, in either encoding, by coefficients that are all
/// zero.
pub proof fn lemma_zero_encoding(encoding: Encoding, map: Seq<usize>, t: int, n: nat)
    requires
        2 <= t,
        n >= 1,
        is_power_of_two(n),
    ensures
        encoded_values(Seq::<u64>::empty(), encoding, map, t, n) == repeated(0, n),
{
    let none = Seq::<u64>::empty();
    match encoding {
        Encoding::Poly => {
            assert(padded_values(none, t, n) =~= repeated(0, n));
        },
        Encoding::Simd => {
            assert(scattered(Seq::new(n, |j: int| 0u64), none, map, t, 0) =~= repeated(0, n));
            lemma_intt_zero(n, inv_twiddles(t, n), 1, t);
        },
    }
}

/// The rows that stand for a plaintext of zeros in a ciphertext are zero.
pub proof fn lemma_zero_plaintext_rows(pt: &Plaintext)
    requires
        pt.wf(),
        pt.coefficients() == repeated(0, pt.parameters().degree() as nat),
    ensures
        Ciphertext::plain_rows_of(pt) == zero_rows(
            pt.parameters().moduli()@.len(),
            pt.parameters().degree() as nat,
        ),
{
    let par = pt.parameters();
    let moduli = par.moduli()@;
    let n = par.degree() as nat;
    let t = par.plaintext_modulus() as int;
    let qmt = par.q_mod_t() as int;
    let zeros = repeated(0, n);
    assert(valid_ring(moduli, n));
    let scaled = scale_seq(pt.coefficients(), qmt, t);
    assert(scaled =~= zeros) by {
        assert forall|j: int| 0 <= j < n implies scaled[j] == 0 by {
            assert(0 * qmt == 0);
            lemma_small_mod(0, t as nat);
        }
    }
    let values = value_rows(scaled, moduli, n);
    let transformed = forward_rows(values, moduli, n);
    let delta = par.delta().rows();
    let rows = mul_rows(transformed, delta, moduli);
    assert forall|i: int| 0 <= i < moduli.len() implies rows[i] =~= zeros by {
        lemma_valid_ring(moduli, n, i);
        let q = moduli[i] as int;
        lemma_small_mod(0, q as nat);
        assert(values[i] =~= constant_seq(0, n));
        lemma_ntt_constant(0, n, twiddles(q, n), 1, q);
        assert forall|j: int| 0 <= j < n implies rows[i][j] == 0 by {
            assert(transformed[i][j] == 0);
            assert(0 * (delta[i][j] as int) == 0);
        }
    }
    assert(rows =~= zero_rows(moduli.len(), n));
}

/// Adding zero rows to rows, or subtracting them, changes nothing.
pub proof fn lemma_zero_rows_neutral(x: Seq<Seq<u64>>, moduli: Seq<u64>, n: nat)
    requires
        valid_ring(moduli, n),
        well_shaped(x, moduli, n),
    ensures
        add_rows(x, zero_rows(moduli.len(), n), moduli) == x,
        sub_rows(x, zero_rows(moduli.len(), n), moduli) == x,
{
    let z = zero_rows(moduli.len(), n);
    assert forall|i: int| 0 <= i < x.len() implies add_rows(x, z, moduli)[i] =~= x[i] && sub_rows(
        x,
        z,
        moduli,
    )[i] =~= x[i] by {
        lemma_valid_ring(moduli, n, i);
        assert forall|j: int| 0 <= j < n implies add_rows(x, z, moduli)[i][j] == x[i][j]
            && sub_rows(x, z, moduli)[i][j] == x[i][j] by {
            lemma_small_mod(x[i][j] as nat, moduli[i] as nat);
        }
    }
    assert(add_rows(x, z, moduli) =~= x);
    assert(sub_rows(x, z, moduli) =~= x);
}

/// A plaintext of zeros is neutral: the ciphertext that its addition to,
/// or its subtraction from, a ciphertext gives has the ring elements of
/// that ciphertext, and so decrypts as it does.
pub proof fn lemma_zero_plaintext_neutral(ct: &Ciphertext, pt: &Plaintext)
    requires
        ct.wf(),
        pt.wf(),
        ct.parameters().same_as(pt.parameters()),
        ct.polys().len() >= 1,
        pt.coefficients() == repeated(0, pt.parameters().degree() as nat),
    ensures
        ct.limbs().update(
            0,
            add_rows(ct.limbs()[0], Ciphertext::plain_rows_of(pt), ct.parameters().moduli()@),
        ) == ct.limbs(),
        ct.limbs().update(
            0,
            sub_rows(ct.limbs()[0], Ciphertext::plain_rows_of(pt), ct.parameters().moduli()@),
        ) == ct.limbs(),
{
    let moduli = ct.parameters().moduli()@;
    let n = ct.parameters().degree() as nat;
    lemma_zero_plaintext_rows(pt);
    assert(ct.polys()[0].fits(ct.parameters().context()));
    assert(ct.limbs()[0] == ct.polys()[0].rows());
    lemma_zero_rows_neutral(ct.limbs()[0], moduli, n);
    assert(ct.limbs().update(0, ct.limbs()[0]) =~= ct.limbs());
}

} // verus!

//! Secret keys: encryption and decryption.

use crate::bigint::{big_bits, big_sub, big_value};
use crate::ciphertext::Ciphertext;
use crate::errors::Error;
use crate::parameters::BfvParameters;
use crate::plaintext::{scaled_plain_rows, Plaintext};
use crate::primes::bit_count;
use crate::rns::{lemma_product_at_least_two, lift_value, product_of};
use crate::rq::{
    add_rows, backward_rows, column, forward_rows, mul_rows, sampled_rows, seeded_rows,
    small_rows, sub_rows, zero_rows, Poly, Representation,
};
use crate::sampling::{fresh_seed, random_words, zeroize_words};
use crate::scaler::{centered, scaled_rows};
use std::rc::Rc;
use vstd::arithmetic::div_mod::*;
use vstd::prelude::*;

verus! {

/// The two limbs of the encryption of the rows `m` of a scaled plaintext
/// under the secret `s`, with the random element `a` and the noise `e`:
/// `(e - a s + m, a)`, all transformed.
pub open spec fn encrypted_limbs(
    s: Seq<Seq<u64>>,
    a: Seq<Seq<u64>>,
    e: Seq<Seq<u64>>,
    m: Seq<Seq<u64>>,
    moduli: Seq<u64>,
    degree: nat,
) -> Seq<Seq<Seq<u64>>> {
    seq![
        add_rows(sub_rows(forward_rows(e, moduli, degree), mul_rows(a, s, moduli), moduli), m, moduli),
        a,
    ]
}

/// The phase of the limbs from limb `i` on under the secret `s`:
/// `c_i + c_{i+1} s + c_{i+2} s^2 + ...`, by Horner's rule.
pub open spec fn phase(limbs: Seq<Seq<Seq<u64>>>, s: Seq<Seq<u64>>, moduli: Seq<u64>, i: int) -> Seq<
    Seq<u64>,
>
    decreases limbs.len() - i,
{
    if i >= limbs.len() - 1 {
        limbs[limbs.len() - 1]
    } else {
        add_rows(mul_rows(phase(limbs, s, moduli, i + 1), s, moduli), limbs[i], moduli)
    }
}

/// The plaintext coefficient that the residue `r` modulo `q` of a scaled
/// coefficient stands for: its centered representative, modulo `t`.
pub open spec fn plain_coefficient(r: u64, q: u64, t: u64) -> int {
    centered(r as nat, q as nat) % (t as int)
}

/// The coefficients of the plaintext that the phase `c`, in transformed
/// form, decrypts to: the phase in coefficient form, scaled by `t / Q`
/// and rounded, modulo `t`.
pub open spec fn decrypted(c: Seq<Seq<u64>>, t: u64, moduli: Seq<u64>, degree: nat) -> Seq<u64> {
    let scaled = scaled_rows(
        backward_rows(c, moduli, degree),
        moduli,
        moduli.take(1),
        degree,
        t as nat,
        product_of(moduli),
    );
    Seq::new(degree, |j: int| plain_coefficient(scaled[0][j], moduli[0], t) as u64)
}

/// The size of the noise of the coefficient `x` modulo `q`: the number of
/// binary digits of `x` or of `q - x`, whichever is less.
pub open spec fn noise_of(x: nat, q: nat) -> nat {
    if bit_count(x) <= bit_count((q - x) as nat) {
        bit_count(x)
    } else {
        bit_count((q - x) as nat)
    }
}

/// The largest size of the noise among the first `k` coefficients.
pub open spec fn noise_bits(rows: Seq<Seq<u64>>, moduli: Seq<u64>, k: nat) -> nat
    decreases k,
{
    if k == 0 {
        0
    } else {
        let before = noise_bits(rows, moduli, (k - 1) as nat);
        let here = noise_of(lift_value(moduli, column(rows, k - 1)), product_of(moduli));
        if before >= here {
            before
        } else {
            here
        }
    }
}

/// The plaintext coefficient that the residue `r` modulo `q` stands for.
pub fn decode_coefficient(r: u64, q: u64, t: u64) -> (v: u64)
    requires
        r < q,
        t >= 1,
    ensures
        v == plain_coefficient(r, q, t),
        v < t,
{
    if r < q - r {
        proof {
            lemma_mod_bound(r as int, t as int);
        }
        r % t
    } else {
        let a = q - r;
        let m = a % t;
        proof {
            let ai = a as int;
            let ti = t as int;
            lemma_fundamental_div_mod(ai, ti);
            let k = ai / ti;
            if m == 0 {
                assert(-ai == (-k) * ti + 0) by (nonlinear_arith)
                    requires
                        ai == ti * k,
                ;
                lemma_fundamental_div_mod_converse(-ai, ti, -k, 0);
            } else {
                assert(-ai == (-k - 1) * ti + (ti - m)) by (nonlinear_arith)
                    requires
                        ai == ti * k + m,
                ;
                lemma_fundamental_div_mod_converse(-ai, ti, -k - 1, ti - m);
            }
        }
        if m == 0 {
            0
        } else {
            t - m
        }
    }
}

/// A secret key: a ring element with small coefficients.
#[derive(Debug, PartialEq, Eq)]
pub struct SecretKey {
    par: Rc<BfvParameters>,
    s: Poly,
}

impl SecretKey {
    /// The parameters of the key.
    pub closed spec fn parameters(&self) -> &BfvParameters {
        &*self.par
    }

    /// The secret ring element.
    pub closed spec fn secret(&self) -> &Poly {
        &self.s
    }

    /// The secret belongs to the ring of the parameters and is held by its
    /// transform, with its Shoup companions, and is never open to work in
    /// variable time.
    pub open spec fn wf(&self) -> bool {
        &&& self.parameters().wf()
        &&& self.secret().fits(self.parameters().context())
        &&& self.secret().representation() == Representation::NttShoup
        &&& !self.secret().variable_time()
    }

    /// The limbs of the encryption of `pt` with the seed and the words of
    /// noise.
    pub open spec fn encryption(&self, pt: &Plaintext, seed: Seq<u8>, words: Seq<u64>) -> Seq<
        Seq<Seq<u64>>,
    > {
        let par = self.parameters();
        encrypted_limbs(
            self.secret().rows(),
            seeded_rows(seed, par.moduli()@, par.degree() as nat),
            small_rows(words, par.variance() as nat, par.moduli()@, par.degree() as nat),
            Ciphertext::plain_rows_of(pt),
            par.moduli()@,
            par.degree() as nat,
        )
    }

    /// The coefficients that `ct` decrypts to.
    pub open spec fn decryption(&self, ct: &Ciphertext) -> Seq<u64> {
        let par = self.parameters();
        decrypted(
            phase(ct.limbs(), self.secret().rows(), par.moduli()@, 0),
            par.plaintext_modulus(),
            par.moduli()@,
            par.degree() as nat,
        )
    }

    /// The parameters of the key.
    pub fn par(&self) -> (r: &Rc<BfvParameters>)
        ensures
            **r == *self.parameters(),
    {
        &self.par
    }

    /// The secret ring element.
    pub fn s(&self) -> (r: &Poly)
        ensures
            *r == *self.secret(),
    {
        &self.s
    }

    /// The key whose coefficients are the centered binomial samples of the
    /// words.
    pub fn from_words(words: &Vec<u64>, par: &Rc<BfvParameters>) -> (r: SecretKey)
        requires
            par.wf(),
            words.len() == par.degree(),
        ensures
            r.wf(),
            *r.parameters() == **par,
            r.secret().rows() == sampled_rows(
                words@,
                par.variance() as nat,
                Representation::NttShoup,
                par.moduli()@,
                par.degree() as nat,
            ),
    {
        let mut s = match Poly::small_from_words(words, par.ctx(), par.variance()) {
            Ok(p) => p,
            Err(_) => Poly::zero(par.ctx(), Representation::PowerBasis),
        };
        s.change_representation(Representation::NttShoup, par.ctx());
        SecretKey { par: par.clone(), s }
    }

    /// A random key: that of whatever words the generator of the thread
    /// gives.
    pub fn random(par: &Rc<BfvParameters>) -> (r: SecretKey)
        requires
            par.wf(),
        ensures
            r.wf(),
            *r.parameters() == **par,
            exists|words: Seq<u64>|
                words.len() == par.degree() && r.secret().rows() == #[trigger] sampled_rows(
                    words,
                    par.variance() as nat,
                    Representation::NttShoup,
                    par.moduli()@,
                    par.degree() as nat,
                ),
    {
        let mut words = random_words(par.degree());
        let ghost drawn = words@;
        let key = SecretKey::from_words(&words, par);
        zeroize_words(&mut words);
        proof {
            assert(key.secret().rows() == sampled_rows(
                drawn,
                par.variance() as nat,
                Representation::NttShoup,
                par.moduli()@,
                par.degree() as nat,
            ));
        }
        key
    }

    /// Overwrites the secret with zeros.
    pub fn zeroize(&mut self)
        requires
            old(self).wf(),
        ensures
            final(self).wf(),
            *final(self).parameters() == *old(self).parameters(),
            final(self).secret().rows() == zero_rows(
                old(self).parameters().moduli()@.len(),
                old(self).parameters().degree() as nat,
            ),
    {
        let ghost moduli = self.par.moduli()@;
        let ghost n = self.par.degree() as nat;
        self.s.zeroize();
        proof {
            assert(self.s.rows() =~= zero_rows(moduli.len(), n));
            assert(self.s.companions() =~= crate::rq::shoup_rows(self.s.rows(), moduli)) by {
                assert forall|i: int| 0 <= i < moduli.len() implies #[trigger] self.s.companions()[i]
                    =~= crate::zq::shoup_seq(self.s.rows()[i], moduli[i] as int) by {
                    assert(old(self).s.companions()[i] == crate::zq::shoup_seq(
                        old(self).s.rows()[i],
                        moduli[i] as int,
                    ));
                    assert(crate::zq::shoup_of(0, moduli[i] as int) == 0);
                }
            }
        }
    }

    /// The encryption of `pt` with the random element of the seed and the
    /// noise of the words, its ring elements open to work in variable
    /// time; fails where the plaintext has other parameters.
    pub fn encrypt_with(&self, pt: &Plaintext, seed: &[u8; 32], words: &Vec<u64>) -> (r: Result<
        Ciphertext,
        Error,
    >)
        requires
            self.wf(),
            pt.wf(),
            words.len() == self.parameters().degree(),
        ensures
            r is Ok <==> self.parameters().same_as(pt.parameters()),
            r matches Ok(ct) ==> ct.wf() && *ct.parameters() == *self.parameters() && ct.seed()
                == Some(*seed) && ct.level() == pt.level() && ct.variable_time() && ct.limbs()
                == self.encryption(pt, seed@, words@),
            r matches Err(e) ==> e == Error::ParameterMismatch,
    {
        if !self.par.same_as(pt.par()) {
            return Err(Error::ParameterMismatch);
        }
        let ctx = self.par.ctx();
        let mut a = Poly::random_from_seed(ctx, Representation::Ntt, seed);
        let mut b = match Poly::small_from_words(words, ctx, self.par.variance()) {
            Ok(p) => p,
            Err(_) => Poly::zero(ctx, Representation::PowerBasis),
        };
        b.change_representation(Representation::Ntt, ctx);
        let mut a_s = a.duplicate();
        a_s.mul_assign(&self.s, ctx);
        b.sub_assign(&a_s, ctx);
        let mut m = pt.to_poly();
        b.add_assign(&m, ctx);
        a_s.zeroize();
        m.zeroize();
        // Nothing secret is combined with the two elements from here on.
        a.allow_variable_time_computations();
        b.allow_variable_time_computations();
        let ghost limbs = self.encryption(pt, seed@, words@);
        proof {
            assert(b.rows() == limbs[0]);
            assert(a.rows() == limbs[1]);
        }
        let c = vec![b, a];
        let ct = Ciphertext::from_parts(&self.par, Some(*seed), c, pt.level());
        proof {
            assert(ct.limbs() =~= limbs);
        }
        Ok(ct)
    }

    /// The encryption of `pt`, with whatever seed and noise the generator
    /// of the thread gives, its ring elements open to work in variable
    /// time; fails where the plaintext has other parameters.
    pub fn encrypt(&self, pt: &Plaintext) -> (r: Result<Ciphertext, Error>)
        requires
            self.wf(),
            pt.wf(),
        ensures
            r is Ok <==> self.parameters().same_as(pt.parameters()),
            r matches Ok(ct) ==> ct.wf() && *ct.parameters() == *self.parameters() && ct.seed()
                is Some && ct.level() == pt.level() && ct.variable_time() && exists|words: Seq<u64>|
                words.len() == self.parameters().degree() && ct.limbs()
                    == #[trigger] self.encryption(pt, ct.seed().unwrap()@, words),
            r matches Err(e) ==> e == Error::ParameterMismatch,
    {
        let seed = fresh_seed();
        let mut words = random_words(self.par.degree());
        let ghost drawn = words@;
        let r = self.encrypt_with(pt, &seed, &words);
        zeroize_words(&mut words);
        proof {
            if r is Ok {
                let ct = r->Ok_0;
                assert(ct.limbs() == self.encryption(pt, ct.seed().unwrap()@, drawn));
            }
        }
        r
    }

    /// The phase of the ciphertext under the secret, in transformed form,
    /// computed without branching on its residues.
    fn phase_of(&self, ct: &Ciphertext) -> (r: Poly)
        requires
            self.wf(),
            ct.wf(),
            self.parameters().same_as(ct.parameters()),
            ct.polys().len() > 0,
            ct.representation() == Representation::Ntt,
        ensures
            r.fits(self.parameters().context()),
            r.representation() == Representation::Ntt,
            !r.variable_time(),
            r.rows() == phase(ct.limbs(), self.secret().rows(), self.parameters().moduli()@, 0),
    {
        let ctx = self.par.ctx();
        let k = ct.len();
        let ghost moduli = self.par.moduli()@;
        let ghost limbs = ct.limbs();
        assert(ct.polys()[k - 1].fits(ct.parameters().context()));
        let mut acc = ct.get(k - 1).duplicate();
        acc.disallow_variable_time_computations();
        let mut i: usize = k - 1;
        while i > 0
            invariant
                self.wf(),
                ct.wf(),
                ct.representation() == Representation::Ntt,
                self.parameters().same_as(ct.parameters()),
                **ctx == *self.parameters().context(),
                moduli == self.par.moduli()@,
                limbs == ct.limbs(),
                k == ct.polys().len(),
                i < k,
                acc.fits(self.parameters().context()),
                acc.representation() == Representation::Ntt,
                !acc.variable_time(),
                acc.rows() == phase(limbs, self.secret().rows(), moduli, i as int),
            decreases i,
        {
            i -= 1;
            assert(ct.polys()[i as int].fits(ct.parameters().context()));
            acc.mul_assign(&self.s, ctx);
            acc.add_assign(ct.get(i), ctx);
        }
        acc
    }

    /// The failure, if any, of a decryption of `ct`: the ciphertext has
    /// other parameters or no ring element, or its ring elements are not
    /// in transformed form.
    pub open spec fn decryption_error(&self, ct: &Ciphertext) -> Option<Error> {
        if !self.parameters().same_as(ct.parameters()) {
            Some(Error::ParameterMismatch)
        } else if ct.polys().len() == 0 {
            Some(Error::EmptyCiphertext)
        } else {
            ct.transform_error()
        }
    }

    /// The plaintext that `ct` decrypts to; fails where the ciphertext has
    /// other parameters or no ring element, or its ring elements are not
    /// in transformed form.
    pub fn decrypt(&self, ct: &Ciphertext) -> (r: Result<Plaintext, Error>)
        requires
            self.wf(),
            ct.wf(),
        ensures
            r is Ok <==> self.decryption_error(ct) is None,
            r matches Ok(pt) ==> pt.wf() && *pt.parameters() == *self.parameters()
                && pt.encoding() is None && pt.level() == 0 && pt.coefficients()
                == self.decryption(ct),
            r matches Err(e) ==> self.decryption_error(ct) == Some(e),
    {
        if !self.par.same_as(ct.par()) {
            return Err(Error::ParameterMismatch);
        }
        if ct.len() == 0 {
            return Err(Error::EmptyCiphertext);
        }
        if ct.representation() != Representation::Ntt {
            return Err(Error::Representation);
        }
        let par = &self.par;
        let ctx = par.ctx();
        let n = par.degree();
        let t = par.plaintext_modulus();
        let mut c = self.phase_of(ct);
        c.change_representation(Representation::PowerBasis, ctx);
        let mut d = match par.scaler().scale(&c) {
            Ok(d) => d,
            Err(e) => {
                return Err(e);
            },
        };
        let ghost want = self.decryption(ct);
        proof {
            par.scaler().lemma_wf();
            par.context().lemma_wf();
        }
        let q0 = par.moduli()[0];
        let mut v: Vec<u64> = Vec::with_capacity(n);
        let mut j: usize = 0;
        while j < n
            invariant
                par.wf(),
                n == par.degree(),
                t == par.plaintext_modulus(),
                q0 == par.moduli()@[0],
                d.fits(par.scaler().target()),
                par.scaler().target().moduli()@ == par.moduli()@.take(1),
                par.scaler().target().degree() == n,
                want == Seq::new(
                    n as nat,
                    |j: int| plain_coefficient(d.rows()[0][j], par.moduli()@[0], t) as u64,
                ),
                j <= n,
                v.len() == j,
                forall|l: int| 0 <= l < j ==> v@[l] == want[l],
                forall|l: int| 0 <= l < j ==> (#[trigger] v@[l]) < t,
            decreases n - j,
        {
            v.push(decode_coefficient(d.row(0)[j], q0, t));
            j += 1;
        }
        assert(v@ =~= want);
        c.zeroize();
        d.zeroize();
        Ok(Plaintext::from_coefficients(v, None, par))
    }

    /// The size in binary digits of the noise of `ct`: of the largest
    /// coefficient, in absolute value, of the phase less the scaled
    /// plaintext that `ct` decrypts to. It branches on the noise.
    pub fn measure_noise(&self, ct: &Ciphertext) -> (r: Result<u64, Error>)
        requires
            self.wf(),
            ct.wf(),
        ensures
            r is Ok <==> self.decryption_error(ct) is None,
            r matches Ok(bits) ==> bits == noise_bits(
                backward_rows(
                    sub_rows(
                        phase(
                            ct.limbs(),
                            self.secret().rows(),
                            self.parameters().moduli()@,
                            0,
                        ),
                        scaled_plain_rows(
                            self.decryption(ct),
                            self.parameters().q_mod_t() as int,
                            self.parameters().plaintext_modulus() as int,
                            self.parameters().delta().rows(),
                            self.parameters().moduli()@,
                            self.parameters().degree() as nat,
                        ),
                        self.parameters().moduli()@,
                    ),
                    self.parameters().moduli()@,
                    self.parameters().degree() as nat,
                ),
                self.parameters().moduli()@,
                self.parameters().degree() as nat,
            ),
            r matches Err(e) ==> self.decryption_error(ct) == Some(e),
    {
        let pt = match self.decrypt(ct) {
            Ok(pt) => pt,
            Err(e) => {
                return Err(e);
            },
        };
        let par = &self.par;
        let ctx = par.ctx();
        let n = par.degree();
        let mut m = pt.to_poly();
        let mut c = self.phase_of(ct);
        c.sub_assign(&m, ctx);
        c.change_representation(Representation::PowerBasis, ctx);
        let q = ctx.rns().modulus();
        let ghost moduli = par.moduli()@;
        proof {
            par.context().lemma_wf();
            lemma_product_at_least_two(moduli);
        }
        let mut noise: u64 = 0;
        let mut j: usize = 0;
        while j < n
            invariant
                par.wf(),
                **ctx == *par.context(),
                n == par.degree(),
                moduli == par.moduli()@,
                big_value(*q) == product_of(moduli),
                product_of(moduli) >= 2,
                c.fits(par.context()),
                j <= n,
                noise == noise_bits(c.rows(), moduli, j as nat),
            decreases n - j,
        {
            let x = c.lift_coefficient(j, ctx);
            proof {
                lemma_mod_bound(
                    crate::rns::garner_sum(moduli, column(c.rows(), j as int), moduli.len())
                        as int,
                    product_of(moduli) as int,
                );
            }
            let low = big_bits(&x);
            let high = big_bits(&big_sub(q, &x));
            let here = if low <= high {
                low
            } else {
                high
            };
            if here > noise {
                noise = here;
            }
            j += 1;
        }
        m.zeroize();
        c.zeroize();
        Ok(noise)
    }
}

} // verus!

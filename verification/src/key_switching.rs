//! Key-switching keys, which carry a ring element from one secret to
//! another, and the evaluation keys built from them.

use crate::errors::Error;
use crate::parameters::BfvParameters;
use crate::plaintext::plain_rows;
use crate::rns::{garner, project_value};
use crate::rq::{
    add_rows, backward_rows, forward_rows, mul_rows, scale_rows, seeded_rows, small_rows,
    sub_rows, Poly, Representation,
};
use crate::sampling::{
    chacha8_bytes, chacha8_fill_bytes, fresh_seed, random_words, zeroize_words,
};
use crate::secret_key::SecretKey;
use std::rc::Rc;
use vstd::prelude::*;

verus! {

/// The seed of the component `i` of a key made from `seed`: 32 bytes of
/// the stream of the generator.
pub open spec fn component_seed(seed: Seq<u8>, count: nat, i: int) -> Seq<u8> {
    chacha8_bytes(seed, 32 * count).subrange(32 * i, 32 * i + 32)
}

/// The first half of the component `i` of the key that carries `from` to
/// the secret `s`: the noise less the random element times the secret,
/// plus `from` times the Garner coefficient at `i`, transformed.
pub open spec fn component_body(
    s: Seq<Seq<u64>>,
    from: Seq<Seq<u64>>,
    a: Seq<Seq<u64>>,
    e: Seq<Seq<u64>>,
    moduli: Seq<u64>,
    degree: nat,
    i: int,
) -> Seq<Seq<u64>> {
    forward_rows(
        add_rows(
            sub_rows(e, backward_rows(mul_rows(a, s, moduli), moduli, degree), moduli),
            scale_rows(from, project_value(moduli, garner(moduli, i)), moduli),
            moduli,
        ),
        moduli,
        degree,
    )
}

/// The accumulator after the first `i` rows of `p` were each multiplied by
/// the component of the key at their index and added.
pub open spec fn switched(
    acc: Seq<Seq<u64>>,
    p: Seq<Seq<u64>>,
    key: Seq<Seq<Seq<u64>>>,
    moduli: Seq<u64>,
    degree: nat,
    i: nat,
) -> Seq<Seq<u64>>
    decreases i,
{
    if i == 0 {
        acc
    } else {
        add_rows(
            switched(acc, p, key, moduli, degree, (i - 1) as nat),
            mul_rows(plain_rows(p[i - 1], moduli, degree), key[i - 1], moduli),
            moduli,
        )
    }
}

/// The words from `from` to `from + n`.
pub fn copy_range(words: &Vec<u64>, from: usize, n: usize) -> (r: Vec<u64>)
    requires
        from + n <= words.len(),
    ensures
        r@ == words@.subrange(from as int, from + n),
{
    let mut out: Vec<u64> = Vec::with_capacity(n);
    let mut i: usize = 0;
    while i < n
        invariant
            from + n <= words.len(),
            i <= n,
            out.len() == i,
            forall|j: int| 0 <= j < i ==> out@[j] == words@[from + j],
        decreases n - i,
    {
        out.push(words[from + i]);
        i += 1;
    }
    assert(out@ =~= words@.subrange(from as int, from + n));
    out
}

/// The 32 bytes from `from` on, as a seed.
pub fn seed_at(bytes: &Vec<u8>, from: usize) -> (r: [u8; 32])
    requires
        from + 32 <= bytes.len(),
    ensures
        r@ == bytes@.subrange(from as int, from + 32),
{
    let mut seed = [0u8;32];
    let mut i: usize = 0;
    while i < 32
        invariant
            from + 32 <= bytes.len(),
            i <= 32,
            forall|j: int| 0 <= j < i ==> seed@[j] == bytes@[from + j],
        decreases 32 - i,
    {
        seed[i] = bytes[from + i];
        i += 1;
    }
    assert(seed@ =~= bytes@.subrange(from as int, from + 32));
    seed
}

/// A key-switching key: for each ciphertext modulus, an encryption under
/// the secret of a ring element times the Garner coefficient of the
/// modulus.
#[derive(Debug, Clone, PartialEq, Eq)]
pub struct KeySwitchingKey {
    par: Rc<BfvParameters>,
    seed: Option<[u8; 32]>,
    c0: Vec<Poly>,
    c1: Vec<Poly>,
}

impl KeySwitchingKey {
    /// The parameters of the key.
    pub closed spec fn parameters(&self) -> &BfvParameters {
        &*self.par
    }

    /// The seed that the random halves were made from.
    pub closed spec fn spec_seed(&self) -> Option<[u8; 32]> {
        self.seed
    }

    /// The first halves of the components.
    pub closed spec fn bodies(&self) -> Seq<Poly> {
        self.c0@
    }

    /// The second, random, halves of the components.
    pub closed spec fn masks(&self) -> Seq<Poly> {
        self.c1@
    }

    /// The rows of the first halves.
    pub open spec fn body_limbs(&self) -> Seq<Seq<Seq<u64>>> {
        Seq::new(self.bodies().len(), |i: int| self.bodies()[i].rows())
    }

    /// The rows of the second halves.
    pub open spec fn mask_limbs(&self) -> Seq<Seq<Seq<u64>>> {
        Seq::new(self.masks().len(), |i: int| self.masks()[i].rows())
    }

    /// There is one component for each modulus, held by its transform with
    /// its Shoup companions.
    pub open spec fn wf(&self) -> bool {
        let par = self.parameters();
        &&& par.wf()
        &&& self.bodies().len() == par.moduli()@.len()
        &&& self.masks().len() == par.moduli()@.len()
        &&& forall|i: int|
            0 <= i < self.bodies().len() ==> (#[trigger] self.bodies()[i]).fits(par.context())
                && self.bodies()[i].representation() == Representation::NttShoup
        &&& forall|i: int|
            0 <= i < self.masks().len() ==> (#[trigger] self.masks()[i]).fits(par.context())
                && self.masks()[i].representation() == Representation::NttShoup
    }

    /// Every ring element of the key may be worked on in variable time.
    pub open spec fn variable_time(&self) -> bool {
        &&& forall|i: int|
            0 <= i < self.bodies().len() ==> (#[trigger] self.bodies()[i]).variable_time()
        &&& forall|i: int|
            0 <= i < self.masks().len() ==> (#[trigger] self.masks()[i]).variable_time()
    }

    /// The parameters of the key.
    pub fn par(&self) -> (r: &Rc<BfvParameters>)
        ensures
            **r == *self.parameters(),
    {
        &self.par
    }

    /// The seed that the random halves were made from.
    #[verifier::when_used_as_spec(spec_seed)]
    pub fn seed(&self) -> (r: Option<[u8; 32]>)
        ensures
            r == self.spec_seed(),
    {
        self.seed
    }

    /// Adds to the two accumulators the ring element `p`, in coefficient
    /// form, carried to the secret of the key: each row of `p`, read as a
    /// polynomial, times the component of the key at its index.
    pub fn key_switch(&self, p: &Poly, acc_0: &mut Poly, acc_1: &mut Poly)
        requires
            self.wf(),
            p.fits(self.parameters().context()),
            p.representation() == Representation::PowerBasis,
            old(acc_0).fits(self.parameters().context()),
            old(acc_1).fits(self.parameters().context()),
            old(acc_0).representation() == Representation::Ntt,
            old(acc_1).representation() == Representation::Ntt,
        ensures
            final(acc_0).fits(self.parameters().context()),
            final(acc_1).fits(self.parameters().context()),
            final(acc_0).representation() == Representation::Ntt,
            final(acc_1).representation() == Representation::Ntt,
            final(acc_0).variable_time() == old(acc_0).variable_time(),
            final(acc_1).variable_time() == old(acc_1).variable_time(),
            final(acc_0).rows() == switched(
                old(acc_0).rows(),
                p.rows(),
                self.body_limbs(),
                self.parameters().moduli()@,
                self.parameters().degree() as nat,
                self.parameters().moduli()@.len(),
            ),
            final(acc_1).rows() == switched(
                old(acc_1).rows(),
                p.rows(),
                self.mask_limbs(),
                self.parameters().moduli()@,
                self.parameters().degree() as nat,
                self.parameters().moduli()@.len(),
            ),
    {
        let ctx = self.par.ctx();
        let k = self.c0.len();
        let ghost moduli = self.par.moduli()@;
        let ghost n = self.par.degree() as nat;
        let mut i: usize = 0;
        while i < k
            invariant
                self.wf(),
                p.fits(self.parameters().context()),
                **ctx == *self.parameters().context(),
                moduli == self.parameters().moduli()@,
                n == self.parameters().degree() as nat,
                k == moduli.len(),
                k == self.c0.len(),
                i <= k,
                acc_0.fits(self.parameters().context()),
                acc_1.fits(self.parameters().context()),
                acc_0.representation() == Representation::Ntt,
                acc_1.representation() == Representation::Ntt,
                acc_0.variable_time() == old(acc_0).variable_time(),
                acc_1.variable_time() == old(acc_1).variable_time(),
                acc_0.rows() == switched(
                    old(acc_0).rows(),
                    p.rows(),
                    self.body_limbs(),
                    moduli,
                    n,
                    i as nat,
                ),
                acc_1.rows() == switched(
                    old(acc_1).rows(),
                    p.rows(),
                    self.mask_limbs(),
                    moduli,
                    n,
                    i as nat,
                ),
            decreases k - i,
        {
            proof {
                self.par.context().lemma_wf();
                assert(self.bodies()[i as int].fits(self.parameters().context()));
                assert(self.masks()[i as int].fits(self.parameters().context()));
            }
            let digit = match Poly::from_values(p.row(i), ctx, Representation::Ntt) {
                Ok(d) => d,
                Err(_) => Poly::zero(ctx, Representation::Ntt),
            };
            let mut t0 = digit.duplicate();
            t0.mul_assign(&self.c0[i], ctx);
            let mut t1 = digit;
            t1.mul_assign(&self.c1[i], ctx);
            acc_0.add_assign(&t0, ctx);
            acc_1.add_assign(&t1, ctx);
            i += 1;
        }
    }
}

impl SecretKey {
    /// The first halves of the key that carries `from` to this secret, made
    /// with the seed and the words of noise.
    pub open spec fn switching_body(
        &self,
        from: Seq<Seq<u64>>,
        seed: Seq<u8>,
        words: Seq<u64>,
        i: int,
    ) -> Seq<Seq<u64>> {
        let par = self.parameters();
        let n = par.degree() as nat;
        let m = par.moduli()@;
        component_body(
            self.secret().rows(),
            from,
            seeded_rows(component_seed(seed, m.len(), i), m, n),
            small_rows(words.subrange(n * i, n * (i + 1)), par.variance() as nat, m, n),
            m,
            n,
            i,
        )
    }

    /// The second, random, half of the component `i` of a key made with
    /// the seed.
    pub open spec fn switching_mask(&self, seed: Seq<u8>, i: int) -> Seq<Seq<u64>> {
        let par = self.parameters();
        seeded_rows(
            component_seed(seed, par.moduli()@.len(), i),
            par.moduli()@,
            par.degree() as nat,
        )
    }

    /// The components of `key` are those that carry the rows `from` to this
    /// secret, made with the seed and the words of noise.
    pub open spec fn made_with(
        &self,
        key: &KeySwitchingKey,
        from: Seq<Seq<u64>>,
        seed: Seq<u8>,
        words: Seq<u64>,
    ) -> bool {
        forall|i: int|
            0 <= i < key.bodies().len() ==> (#[trigger] key.bodies()[i]).rows()
                == self.switching_body(from, seed, words, i) && key.masks()[i].rows()
                == self.switching_mask(seed, i)
    }

    /// The square of the secret, in coefficient form.
    pub open spec fn square(&self) -> Seq<Seq<u64>> {
        let par = self.parameters();
        backward_rows(
            mul_rows(self.secret().rows(), self.secret().rows(), par.moduli()@),
            par.moduli()@,
            par.degree() as nat,
        )
    }

    /// The relinearization key of `key`, where it holds one, carries the
    /// square of this secret to this secret.
    pub open spec fn relinearized_by(&self, key: &EvaluationKey) -> bool {
        key.relinearization_key() matches Some(k) ==> exists|seed: Seq<u8>, words: Seq<u64>|
            words.len() == self.parameters().degree() * self.parameters().moduli()@.len()
                && #[trigger] self.made_with(&k, self.square(), seed, words)
    }

    /// The key that carries `from`, in coefficient form, to this secret,
    /// made with the seed and the words of noise; fails where `from` is not
    /// in coefficient form.
    pub fn key_switching_with(&self, from: &Poly, seed: &[u8; 32], words: &Vec<u64>) -> (r: Result<
        KeySwitchingKey,
        Error,
    >)
        requires
            self.wf(),
            from.fits(self.parameters().context()),
            words.len() == self.parameters().degree() * self.parameters().moduli()@.len(),
        ensures
            r is Ok <==> from.representation() == Representation::PowerBasis,
            r matches Ok(key) ==> key.wf() && *key.parameters() == *self.parameters()
                && key.seed() == Some(*seed) && key.variable_time() && self.made_with(
                &key,
                from.rows(),
                seed@,
                words@,
            ),
            r matches Err(e) ==> e == Error::Representation,
    {
        if from.representation() != Representation::PowerBasis {
            return Err(Error::Representation);
        }
        let par = self.par();
        let ctx = par.ctx();
        let k = par.moduli().len();
        let n = par.degree();
        let ghost m = par.moduli()@;
        proof {
            par.context().lemma_wf();
            assert(32 * k <= usize::MAX) by (nonlinear_arith)
                requires
                    4 * n * k <= usize::MAX,
                    n >= 8,
            ;
        }
        let bytes = chacha8_fill_bytes(seed, 32 * k);
        let mut c0: Vec<Poly> = Vec::with_capacity(k);
        let mut c1: Vec<Poly> = Vec::with_capacity(k);
        let mut i: usize = 0;
        while i < k
            invariant
                self.wf(),
                from.fits(self.parameters().context()),
                from.representation() == Representation::PowerBasis,
                **par == *self.parameters(),
                **ctx == *self.parameters().context(),
                m == self.parameters().moduli()@,
                k == m.len(),
                n == self.parameters().degree(),
                words.len() == n * k,
                bytes@ == chacha8_bytes(seed@, 32 * k as nat),
                bytes.len() == 32 * k,
                i <= k,
                c0.len() == i,
                c1.len() == i,
                forall|j: int|
                    0 <= j < i ==> (#[trigger] c0@[j]).fits(self.parameters().context())
                        && c0@[j].representation() == Representation::NttShoup
                        && c0@[j].variable_time() && c0@[j].rows() == self.switching_body(
                        from.rows(),
                        seed@,
                        words@,
                        j,
                    ),
                forall|j: int|
                    0 <= j < i ==> (#[trigger] c1@[j]).fits(self.parameters().context())
                        && c1@[j].representation() == Representation::NttShoup
                        && c1@[j].variable_time() && c1@[j].rows() == seeded_rows(
                        component_seed(seed@, m.len(), j),
                        m,
                        n as nat,
                    ),
            decreases k - i,
        {
            proof {
                assert(n * (i + 1) <= n * k) by (nonlinear_arith)
                    requires
                        i + 1 <= k,
                ;
                assert(n * i + n == n * (i + 1)) by (nonlinear_arith);
            }
            let seed_i = seed_at(&bytes, 32 * i);
            let mut noise = copy_range(words, n * i, n);
            let mut a = Poly::random_from_seed(ctx, Representation::Ntt, &seed_i);
            let mut a_s = a.duplicate();
            a_s.mul_assign(self.s(), ctx);
            a_s.change_representation(Representation::PowerBasis, ctx);
            let mut b = match Poly::small_from_words(&noise, ctx, par.variance()) {
                Ok(p) => p,
                Err(_) => Poly::zero(ctx, Representation::PowerBasis),
            };
            zeroize_words(&mut noise);
            b.sub_assign(&a_s, ctx);
            let coefficient = match ctx.rns().get_garner(i) {
                Some(g) => ctx.rns().project(g),
                None => ctx.rns().project(ctx.rns().modulus()),
            };
            proof {
                assert forall|l: int| 0 <= l < coefficient.len() implies (
                #[trigger] coefficient@[l]) < m[l] by {
                    vstd::arithmetic::div_mod::lemma_mod_bound(
                        garner(m, i as int) as int,
                        m[l] as int,
                    );
                }
            }
            let mut g_i_from = from.duplicate();
            g_i_from.disallow_variable_time_computations();
            g_i_from.scale_assign(&coefficient, ctx);
            b.add_assign(&g_i_from, ctx);
            a_s.zeroize();
            g_i_from.zeroize();
            // Nothing secret is combined with the two elements from here on.
            a.allow_variable_time_computations();
            b.allow_variable_time_computations();
            a.change_representation(Representation::NttShoup, ctx);
            b.change_representation(Representation::NttShoup, ctx);
            c0.push(b);
            c1.push(a);
            i += 1;
        }
        Ok(KeySwitchingKey { par: par.clone(), seed: Some(*seed), c0, c1 })
    }

    /// The key that carries `from`, in coefficient form, to this secret,
    /// with whatever seed and noise the generator of the thread gives;
    /// fails where `from` is not in coefficient form.
    pub fn key_switching_new(&self, from: &Poly) -> (r: Result<KeySwitchingKey, Error>)
        requires
            self.wf(),
            from.fits(self.parameters().context()),
        ensures
            r is Ok <==> from.representation() == Representation::PowerBasis,
            r matches Ok(key) ==> key.wf() && *key.parameters() == *self.parameters()
                && key.seed() is Some && key.variable_time() && exists|words: Seq<u64>|
                words.len() == self.parameters().degree() * self.parameters().moduli()@.len()
                    && #[trigger] self.made_with(&key, from.rows(), key.seed().unwrap()@, words),
            r matches Err(e) ==> e == Error::Representation,
    {
        let n = self.par().degree();
        let k = self.par().moduli().len();
        proof {
            self.parameters().context().lemma_wf();
            assert(n * k <= usize::MAX) by (nonlinear_arith)
                requires
                    4 * n * k <= usize::MAX,
            ;
        }
        let seed = fresh_seed();
        let mut words = random_words(n * k);
        let ghost drawn = words@;
        let r = self.key_switching_with(from, &seed, &words);
        zeroize_words(&mut words);
        proof {
            if r is Ok {
                let key = r->Ok_0;
                assert(drawn.len() == n * k);
                assert(self.made_with(&key, from.rows(), key.seed().unwrap()@, drawn));
            }
        }
        r
    }
}

/// An evaluation key: what lets the holder of public material alone
/// compute on ciphertexts.
#[derive(Debug, Clone, PartialEq, Eq)]
pub struct EvaluationKey {
    par: Rc<BfvParameters>,
    relinearization: Option<KeySwitchingKey>,
}

impl EvaluationKey {
    /// The parameters of the key.
    pub closed spec fn parameters(&self) -> &BfvParameters {
        &*self.par
    }

    /// The key that carries the square of the secret to the secret, where
    /// the evaluation key holds one.
    pub closed spec fn relinearization_key(&self) -> Option<KeySwitchingKey> {
        self.relinearization
    }

    /// The key it holds is well-formed and has the same parameters.
    pub open spec fn wf(&self) -> bool {
        &&& self.parameters().wf()
        &&& self.relinearization_key() matches Some(key) ==> key.wf() && *key.parameters()
            == *self.parameters()
    }

    /// The parameters of the key.
    pub fn par(&self) -> (r: &Rc<BfvParameters>)
        ensures
            **r == *self.parameters(),
    {
        &self.par
    }

    /// Whether the key lets a product be brought back to two ring elements.
    pub fn supports_relinearization(&self) -> (r: bool)
        ensures
            r == self.relinearization_key() is Some,
    {
        self.relinearization.is_some()
    }

    /// Folds the third ring element `c2` of a product, in coefficient form,
    /// into the first two; fails where the key holds no relinearization
    /// key.
    pub fn relinearizes(&self, c0: &mut Poly, c1: &mut Poly, c2: &Poly) -> (r: Result<(), Error>)
        requires
            self.wf(),
            c2.fits(self.parameters().context()),
            c2.representation() == Representation::PowerBasis,
            old(c0).fits(self.parameters().context()),
            old(c1).fits(self.parameters().context()),
            old(c0).representation() == Representation::Ntt,
            old(c1).representation() == Representation::Ntt,
        ensures
            r is Ok <==> self.relinearization_key() is Some,
            final(c0).fits(self.parameters().context()),
            final(c1).fits(self.parameters().context()),
            final(c0).representation() == Representation::Ntt,
            final(c1).representation() == Representation::Ntt,
            r matches Ok(_) ==> final(c0).rows() == switched(
                old(c0).rows(),
                c2.rows(),
                self.relinearization_key().unwrap().body_limbs(),
                self.parameters().moduli()@,
                self.parameters().degree() as nat,
                self.parameters().moduli()@.len(),
            ) && final(c1).rows() == switched(
                old(c1).rows(),
                c2.rows(),
                self.relinearization_key().unwrap().mask_limbs(),
                self.parameters().moduli()@,
                self.parameters().degree() as nat,
                self.parameters().moduli()@.len(),
            ),
            r matches Err(e) ==> e == Error::NoRelinearization && final(c0).rows() == old(
                c0,
            ).rows() && final(c1).rows() == old(c1).rows(),
    {
        match &self.relinearization {
            Some(key) => {
                key.key_switch(c2, c0, c1);
                Ok(())
            },
            None => Err(Error::NoRelinearization),
        }
    }
}

/// The choices from which an evaluation key is built.
#[derive(Debug)]
pub struct EvaluationKeyBuilder<'a> {
    sk: &'a SecretKey,
    relinearization: bool,
}

impl<'a> EvaluationKeyBuilder<'a> {
    /// The secret key that the evaluation key is built for.
    pub closed spec fn secret_key(&self) -> &SecretKey {
        self.sk
    }

    /// Whether relinearization was asked for.
    pub closed spec fn relinearization(&self) -> bool {
        self.relinearization
    }

    /// A builder of an evaluation key for the secret key, with nothing
    /// enabled.
    pub fn new(sk: &'a SecretKey) -> (r: EvaluationKeyBuilder<'a>)
        ensures
            *r.secret_key() == *sk,
            !r.relinearization(),
    {
        EvaluationKeyBuilder { sk, relinearization: false }
    }

    /// Asks for relinearization.
    pub fn enable_relinearization(self) -> (r: EvaluationKeyBuilder<'a>)
        ensures
            *r.secret_key() == *self.secret_key(),
            r.relinearization(),
    {
        EvaluationKeyBuilder { sk: self.sk, relinearization: true }
    }

    /// The evaluation key: with a key that carries the square of the secret
    /// to the secret exactly where relinearization was asked for.
    pub fn build(&self) -> (r: Result<EvaluationKey, Error>)
        requires
            self.secret_key().wf(),
        ensures
            r matches Ok(key) && key.wf() && *key.parameters() == *self.secret_key().parameters()
                && (key.relinearization_key() is Some <==> self.relinearization())
                && self.secret_key().relinearized_by(&key),
    {
        let sk = self.sk;
        let relinearization = if self.relinearization {
            let ctx = sk.par().ctx();
            let mut s2 = sk.s().duplicate();
            s2.disallow_variable_time_computations();
            s2.change_representation(Representation::Ntt, ctx);
            s2.mul_assign(sk.s(), ctx);
            s2.change_representation(Representation::PowerBasis, ctx);
            let ghost square = s2.rows();
            let made = sk.key_switching_new(&s2);
            s2.zeroize();
            match made {
                Ok(key) => {
                    proof {
                        let words = choose|words: Seq<u64>|
                            words.len() == sk.parameters().degree() * sk.parameters().moduli()@.len()
                                && #[trigger] sk.made_with(
                                &key,
                                square,
                                key.seed().unwrap()@,
                                words,
                            );
                        assert(sk.made_with(&key, sk.square(), key.seed().unwrap()@, words));
                    }
                    Some(key)
                },
                Err(_) => None,
            }
        } else {
            None
        };
        Ok(EvaluationKey { par: sk.par().clone(), relinearization })
    }
}

} // verus!

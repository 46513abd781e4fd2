//! Ciphertexts, and the operations on them that need no key.

use crate::errors::Error;
use crate::parameters::BfvParameters;
use crate::plaintext::{scaled_plain_rows, Plaintext};
use crate::rq::{add_rows, mul_rows, neg_rows, seeded_rows, sub_rows, Poly, Representation};
use std::rc::Rc;
use vstd::prelude::*;

verus! {

/// The rows of each polynomial of a list.
pub open spec fn limbs_of(c: Seq<Poly>) -> Seq<Seq<Seq<u64>>> {
    Seq::new(c.len(), |i: int| c[i].rows())
}

/// The limb-wise sum of two lists of limbs.
pub open spec fn add_limbs(
    a: Seq<Seq<Seq<u64>>>,
    b: Seq<Seq<Seq<u64>>>,
    moduli: Seq<u64>,
) -> Seq<Seq<Seq<u64>>> {
    Seq::new(a.len(), |i: int| add_rows(a[i], b[i], moduli))
}

/// The limb-wise difference of two lists of limbs.
pub open spec fn sub_limbs(
    a: Seq<Seq<Seq<u64>>>,
    b: Seq<Seq<Seq<u64>>>,
    moduli: Seq<u64>,
) -> Seq<Seq<Seq<u64>>> {
    Seq::new(a.len(), |i: int| sub_rows(a[i], b[i], moduli))
}

/// The limb-wise opposite of a list of limbs.
pub open spec fn neg_limbs(a: Seq<Seq<Seq<u64>>>, moduli: Seq<u64>) -> Seq<Seq<Seq<u64>>> {
    Seq::new(a.len(), |i: int| neg_rows(a[i], moduli))
}

/// Each limb multiplied by the rows `p`.
pub open spec fn scale_limbs(a: Seq<Seq<Seq<u64>>>, p: Seq<Seq<u64>>, moduli: Seq<u64>) -> Seq<
    Seq<Seq<u64>>,
> {
    Seq::new(a.len(), |i: int| mul_rows(a[i], p, moduli))
}

/// A ciphertext: a list of ring elements, the parameters they belong to,
/// the seed of the last element where it can be made again from one, and
/// a level.
#[derive(Debug, Clone, PartialEq, Eq)]
pub struct Ciphertext {
    par: Rc<BfvParameters>,
    seed: Option<[u8; 32]>,
    c: Vec<Poly>,
    level: usize,
}

impl Ciphertext {
    /// The parameters of the ciphertext.
    pub closed spec fn parameters(&self) -> &BfvParameters {
        &*self.par
    }

    /// The ring elements of the ciphertext.
    pub closed spec fn polys(&self) -> Seq<Poly> {
        self.c@
    }

    /// The seed of the last ring element, where there is one.
    pub closed spec fn spec_seed(&self) -> Option<[u8; 32]> {
        self.seed
    }

    /// The level of the ciphertext.
    pub closed spec fn spec_level(&self) -> usize {
        self.level
    }

    /// The residues of the ring elements.
    pub open spec fn limbs(&self) -> Seq<Seq<Seq<u64>>> {
        limbs_of(self.polys())
    }

    /// The form in which the ring elements are held: that of the first
    /// one, or the transformed form where there is none.
    pub open spec fn spec_representation(&self) -> Representation {
        if self.polys().len() == 0 {
            Representation::Ntt
        } else {
            self.polys()[0].representation()
        }
    }

    /// The ring elements belong to the ring of the parameters and share
    /// one form; where there is a seed, the form is the transformed one
    /// and the last element is the one that the seed gives.
    pub open spec fn wf(&self) -> bool {
        let par = self.parameters();
        &&& par.wf()
        &&& forall|i: int|
            0 <= i < self.polys().len() ==> (#[trigger] self.polys()[i]).fits(par.context())
                && self.polys()[i].representation() == self.representation()
        &&& self.seed() matches Some(s) ==> self.polys().len() >= 1 && self.representation()
            == Representation::Ntt && self.polys().last().rows() == seeded_rows(
            s@,
            par.moduli()@,
            par.degree() as nat,
        )
    }

    /// The failure, if any, of an operation that works on the ring
    /// elements in the form they have: the form with Shoup companions
    /// admits none.
    pub open spec fn form_error(&self) -> Option<Error> {
        if self.polys().len() > 0 && self.representation() == Representation::NttShoup {
            Some(Error::Representation)
        } else {
            None
        }
    }

    /// The failure, if any, of an operation that needs transformed ring
    /// elements.
    pub open spec fn transform_error(&self) -> Option<Error> {
        if self.representation() != Representation::Ntt {
            Some(Error::Representation)
        } else {
            None
        }
    }

    /// Every ring element may be worked on in variable time.
    pub open spec fn variable_time(&self) -> bool {
        forall|i: int|
            0 <= i < self.polys().len() ==> (#[trigger] self.polys()[i]).variable_time()
    }

    /// The parameters of the ciphertext.
    pub fn par(&self) -> (r: &Rc<BfvParameters>)
        ensures
            **r == *self.parameters(),
    {
        &self.par
    }

    /// The form in which the ring elements are held.
    #[verifier::when_used_as_spec(spec_representation)]
    pub fn representation(&self) -> (r: Representation)
        ensures
            r == self.spec_representation(),
    {
        if self.c.len() == 0 {
            Representation::Ntt
        } else {
            self.c[0].representation()
        }
    }

    /// The seed of the last ring element, where there is one.
    #[verifier::when_used_as_spec(spec_seed)]
    pub fn seed(&self) -> (r: Option<[u8; 32]>)
        ensures
            r == self.spec_seed(),
    {
        self.seed
    }

    /// The level of the ciphertext.
    #[verifier::when_used_as_spec(spec_level)]
    pub fn level(&self) -> (r: usize)
        ensures
            r == self.spec_level(),
    {
        self.level
    }

    /// The number of ring elements.
    pub fn len(&self) -> (r: usize)
        ensures
            r == self.polys().len(),
    {
        self.c.len()
    }

    /// The ring element at `i`.
    pub fn get(&self, i: usize) -> (r: &Poly)
        requires
            i < self.polys().len(),
        ensures
            *r == self.polys()[i as int],
    {
        &self.c[i]
    }

    /// The ciphertext made of parts that are well-formed: elements of the
    /// ring of the parameters in one form, the transformed one where there
    /// is a seed, and the last is then the one that the seed gives.
    pub(crate) fn from_parts(
        par: &Rc<BfvParameters>,
        seed: Option<[u8; 32]>,
        c: Vec<Poly>,
        level: usize,
    ) -> (r: Ciphertext)
        requires
            par.wf(),
            forall|i: int|
                0 <= i < c@.len() ==> (#[trigger] c@[i]).fits(par.context())
                    && c@[i].representation() == c@[0].representation(),
            seed matches Some(s) ==> c@.len() >= 1 && c@[0].representation()
                == Representation::Ntt && c@.last().rows() == seeded_rows(
                s@,
                par.moduli()@,
                par.degree() as nat,
            ),
        ensures
            r.wf(),
            *r.parameters() == **par,
            r.seed() == seed,
            r.polys() == c@,
            r.level() == level,
    {
        Ciphertext { par: par.clone(), seed, c, level }
    }

    /// The ciphertext without ring elements: the neutral element of the
    /// addition.
    pub fn zero(par: &Rc<BfvParameters>) -> (r: Ciphertext)
        requires
            par.wf(),
        ensures
            r.wf(),
            *r.parameters() == **par,
            r.polys().len() == 0,
            r.seed() is None,
            r.level() == 0,
    {
        Ciphertext { par: par.clone(), seed: None, c: Vec::new(), level: 0 }
    }

    /// A copy of the ciphertext.
    pub fn duplicate(&self) -> (r: Ciphertext)
        ensures
            *r.parameters() == *self.parameters(),
            r.seed() == self.seed(),
            r.level() == self.level(),
            r.limbs() == self.limbs(),
            r.polys().len() == self.polys().len(),
            r.representation() == self.representation(),
            forall|i: int|
                0 <= i < r.polys().len() ==> (#[trigger] r.polys()[i]).companions()
                    == self.polys()[i].companions() && r.polys()[i].representation()
                    == self.polys()[i].representation() && r.polys()[i].variable_time()
                    == self.polys()[i].variable_time() && r.polys()[i].rows()
                    == self.polys()[i].rows(),
    {
        let k = self.c.len();
        let mut c: Vec<Poly> = Vec::with_capacity(k);
        let mut i: usize = 0;
        while i < k
            invariant
                k == self.c.len(),
                i <= k,
                c.len() == i,
                forall|j: int|
                    0 <= j < i ==> (#[trigger] c@[j]).companions() == self.c@[j].companions()
                        && c@[j].representation() == self.c@[j].representation()
                        && c@[j].variable_time() == self.c@[j].variable_time() && c@[j].rows()
                        == self.c@[j].rows(),
            decreases k - i,
        {
            c.push(self.c[i].duplicate());
            i += 1;
        }
        assert(limbs_of(c@) =~= limbs_of(self.c@));
        Ciphertext { par: self.par.clone(), seed: self.seed, c, level: self.level }
    }

    /// The failure, if any, of an addition of `rhs`: the ring elements of
    /// the two are added in the form that they share.
    pub open spec fn sum_error(&self, rhs: &Ciphertext) -> Option<Error> {
        if !self.parameters().same_as(rhs.parameters()) {
            Some(Error::ParameterMismatch)
        } else if self.polys().len() == 0 || rhs.polys().len() == 0 {
            None
        } else if self.level() != rhs.level() {
            Some(Error::LevelMismatch)
        } else if self.polys().len() != rhs.polys().len() {
            Some(Error::LimbCount)
        } else if self.representation() != rhs.representation() || self.representation()
            == Representation::NttShoup {
            Some(Error::Representation)
        } else {
            None
        }
    }

    /// The failure, if any, of a subtraction of `rhs`: that of an
    /// addition, but from a ciphertext without ring elements the opposite
    /// of `rhs` is taken.
    pub open spec fn difference_error(&self, rhs: &Ciphertext) -> Option<Error> {
        if self.parameters().same_as(rhs.parameters()) && self.polys().len() == 0 {
            rhs.form_error()
        } else {
            self.sum_error(rhs)
        }
    }

    /// The opposite of the ciphertext: the opposite of each ring element,
    /// in the form that they have. Fails where the ring elements hold
    /// their Shoup companions.
    pub fn neg(&self) -> (r: Result<Ciphertext, Error>)
        requires
            self.wf(),
        ensures
            match r {
                Ok(c) => self.form_error() is None && c.wf() && *c.parameters()
                    == *self.parameters() && c.level() == self.level() && c.seed() is None
                    && c.representation() == self.representation() && c.limbs() == neg_limbs(
                    self.limbs(),
                    self.parameters().moduli()@,
                ),
                Err(e) => self.form_error() == Some(e),
            },
    {
        let k = self.c.len();
        if k > 0 && self.c[0].representation() == Representation::NttShoup {
            return Err(Error::Representation);
        }
        let ghost moduli = self.par.moduli()@;
        let ghost form = self.representation();
        let mut c: Vec<Poly> = Vec::with_capacity(k);
        let mut i: usize = 0;
        while i < k
            invariant
                self.wf(),
                moduli == self.par.moduli()@,
                form == self.representation(),
                form != Representation::NttShoup,
                k == self.c.len(),
                i <= k,
                c.len() == i,
                forall|j: int|
                    0 <= j < i ==> (#[trigger] c@[j]).fits(self.par.context())
                        && c@[j].representation() == form && c@[j].rows() == neg_rows(
                        self.c@[j].rows(),
                        moduli,
                    ),
            decreases k - i,
        {
            assert(self.polys()[i as int].fits(self.par.context()));
            let mut p = self.c[i].duplicate();
            p.neg_assign(self.par.ctx());
            c.push(p);
            i += 1;
        }
        assert(limbs_of(c@) =~= neg_limbs(self.limbs(), moduli));
        Ok(Ciphertext { par: self.par.clone(), seed: None, c, level: self.level })
    }

    /// Adds `rhs` to the ciphertext, ring element by ring element, in the
    /// form that the two share. A ciphertext without ring elements is
    /// neutral. Fails where the two do not have the same parameters,
    /// level, number of ring elements or form, or hold their Shoup
    /// companions.
    pub fn add_assign(&mut self, rhs: &Ciphertext) -> (r: Result<(), Error>)
        requires
            old(self).wf(),
            rhs.wf(),
        ensures
            final(self).wf(),
            *final(self).parameters() == *old(self).parameters(),
            final(self).representation() == (if r is Ok && old(self).polys().len() == 0 {
                rhs.representation()
            } else {
                old(self).representation()
            }),
            match r {
                Ok(_) => old(self).sum_error(rhs) is None && if old(self).polys().len() == 0 {
                    final(self).limbs() == rhs.limbs() && final(self).seed() == rhs.seed()
                        && final(self).level() == rhs.level()
                } else if rhs.polys().len() == 0 {
                    final(self).limbs() == old(self).limbs() && final(self).seed() == old(
                        self,
                    ).seed() && final(self).level() == old(self).level()
                } else {
                    final(self).limbs() == add_limbs(
                        old(self).limbs(),
                        rhs.limbs(),
                        old(self).parameters().moduli()@,
                    ) && final(self).seed() is None && final(self).level() == old(self).level()
                },
                Err(e) => old(self).sum_error(rhs) == Some(e) && final(self).limbs() == old(
                    self,
                ).limbs() && final(self).seed() == old(self).seed() && final(self).level()
                    == old(self).level(),
            },
    {
        if !self.par.same_as(&rhs.par) {
            return Err(Error::ParameterMismatch);
        }
        if self.c.len() == 0 {
            let copy = rhs.duplicate();
            self.c = copy.c;
            self.seed = copy.seed;
            self.level = copy.level;
            proof {
                assert forall|i: int| 0 <= i < self.polys().len() implies (#[trigger] self.polys()[i]).fits(
                    self.parameters().context(),
                ) && self.polys()[i].representation() == self.representation() by {
                    assert(rhs.polys()[i].fits(rhs.parameters().context()));
                    assert(rhs.polys()[0].fits(rhs.parameters().context()));
                }
                if self.seed is Some {
                    assert(self.polys().last().rows() == self.limbs()[self.polys().len() - 1]);
                    assert(rhs.polys().last().rows() == rhs.limbs()[rhs.polys().len() - 1]);
                }
            }
            return Ok(());
        }
        if rhs.c.len() == 0 {
            return Ok(());
        }
        if self.level != rhs.level {
            return Err(Error::LevelMismatch);
        }
        if self.c.len() != rhs.c.len() {
            return Err(Error::LimbCount);
        }
        if self.c[0].representation() != rhs.c[0].representation() || self.c[0].representation()
            == Representation::NttShoup {
            return Err(Error::Representation);
        }
        let k = self.c.len();
        let ghost moduli = self.par.moduli()@;
        let ghost before = self.c@;
        let ghost form = self.representation();
        let mut i: usize = 0;
        while i < k
            invariant
                rhs.wf(),
                self.par == old(self).par,
                self.level == old(self).level,
                self.par.wf(),
                self.par.same_as(&rhs.par),
                moduli == self.par.moduli()@,
                before == old(self).c@,
                form == rhs.representation(),
                form != Representation::NttShoup,
                k == self.c.len(),
                k == rhs.c.len(),
                k == before.len(),
                k >= 1,
                i <= k,
                forall|j: int|
                    0 <= j < k ==> (#[trigger] self.c@[j]).fits(self.par.context())
                        && self.c@[j].representation() == form,
                forall|j: int|
                    0 <= j < i ==> (#[trigger] self.c@[j]).rows() == add_rows(
                        before[j].rows(),
                        rhs.c@[j].rows(),
                        moduli,
                    ),
                forall|j: int| i <= j < k ==> (#[trigger] self.c@[j]).rows() == before[j].rows(),
            decreases k - i,
        {
            assert(rhs.polys()[i as int].fits(rhs.par.context()));
            self.c[i].add_assign(&rhs.c[i], self.par.ctx());
            i += 1;
        }
        self.seed = None;
        assert(self.limbs() =~= add_limbs(old(self).limbs(), rhs.limbs(), moduli));
        Ok(())
    }

    /// The sum of the ciphertext and `rhs`.
    pub fn add(&self, rhs: &Ciphertext) -> (r: Result<Ciphertext, Error>)
        requires
            self.wf(),
            rhs.wf(),
        ensures
            match r {
                Ok(c) => c.wf() && *c.parameters() == *self.parameters() && self.sum_error(rhs)
                    is None && c.representation() == (if self.polys().len() == 0 {
                    rhs.representation()
                } else {
                    self.representation()
                }) && if self.polys().len() == 0 {
                    c.limbs() == rhs.limbs() && c.seed() == rhs.seed() && c.level() == rhs.level()
                } else if rhs.polys().len() == 0 {
                    c.limbs() == self.limbs() && c.seed() == self.seed() && c.level()
                        == self.level()
                } else {
                    c.limbs() == add_limbs(self.limbs(), rhs.limbs(), self.parameters().moduli()@)
                        && c.seed() is None && c.level() == self.level()
                },
                Err(e) => self.sum_error(rhs) == Some(e),
            },
    {
        let mut out = self.duplicate();
        proof {
            lemma_copy_wf(self, &out);
        }
        match out.add_assign(rhs) {
            Ok(_) => Ok(out),
            Err(e) => Err(e),
        }
    }

    /// Subtracts `rhs` from the ciphertext, ring element by ring element,
    /// in the form that the two share. From a ciphertext without ring
    /// elements, the opposite of `rhs` is left. Fails where the two do not
    /// have the same parameters, level, number of ring elements or form,
    /// or hold their Shoup companions.
    pub fn sub_assign(&mut self, rhs: &Ciphertext) -> (r: Result<(), Error>)
        requires
            old(self).wf(),
            rhs.wf(),
        ensures
            final(self).wf(),
            *final(self).parameters() == *old(self).parameters(),
            final(self).representation() == (if r is Ok && old(self).polys().len() == 0 {
                rhs.representation()
            } else {
                old(self).representation()
            }),
            match r {
                Ok(_) => old(self).difference_error(rhs) is None && if old(self).polys().len() == 0 {
                    final(self).limbs() == neg_limbs(rhs.limbs(), rhs.parameters().moduli()@)
                        && final(self).seed() is None && final(self).level() == rhs.level()
                } else if rhs.polys().len() == 0 {
                    final(self).limbs() == old(self).limbs() && final(self).seed() == old(
                        self,
                    ).seed() && final(self).level() == old(self).level()
                } else {
                    final(self).limbs() == sub_limbs(
                        old(self).limbs(),
                        rhs.limbs(),
                        old(self).parameters().moduli()@,
                    ) && final(self).seed() is None && final(self).level() == old(self).level()
                },
                Err(e) => old(self).difference_error(rhs) == Some(e) && final(self).limbs() == old(
                    self,
                ).limbs() && final(self).seed() == old(self).seed() && final(self).level()
                    == old(self).level(),
            },
    {
        if !self.par.same_as(&rhs.par) {
            return Err(Error::ParameterMismatch);
        }
        if self.c.len() == 0 {
            let opposite = match rhs.neg() {
                Ok(c) => c,
                Err(e) => {
                    return Err(e);
                },
            };
            self.c = opposite.c;
            self.seed = None;
            self.level = opposite.level;
            proof {
                assert forall|i: int| 0 <= i < self.polys().len() implies (#[trigger] self.polys()[i]).fits(
                    self.parameters().context(),
                ) && self.polys()[i].representation() == self.representation() by {
                    assert(opposite.polys()[i].fits(opposite.parameters().context()));
                    assert(opposite.polys()[0].fits(opposite.parameters().context()));
                }
            }
            return Ok(());
        }
        if rhs.c.len() == 0 {
            return Ok(());
        }
        if self.level != rhs.level {
            return Err(Error::LevelMismatch);
        }
        if self.c.len() != rhs.c.len() {
            return Err(Error::LimbCount);
        }
        if self.c[0].representation() != rhs.c[0].representation() || self.c[0].representation()
            == Representation::NttShoup {
            return Err(Error::Representation);
        }
        let k = self.c.len();
        let ghost moduli = self.par.moduli()@;
        let ghost before = self.c@;
        let ghost form = self.representation();
        let mut i: usize = 0;
        while i < k
            invariant
                rhs.wf(),
                self.par == old(self).par,
                self.level == old(self).level,
                self.par.wf(),
                self.par.same_as(&rhs.par),
                moduli == self.par.moduli()@,
                before == old(self).c@,
                form == rhs.representation(),
                form != Representation::NttShoup,
                k == self.c.len(),
                k == rhs.c.len(),
                k == before.len(),
                k >= 1,
                i <= k,
                forall|j: int|
                    0 <= j < k ==> (#[trigger] self.c@[j]).fits(self.par.context())
                        && self.c@[j].representation() == form,
                forall|j: int|
                    0 <= j < i ==> (#[trigger] self.c@[j]).rows() == sub_rows(
                        before[j].rows(),
                        rhs.c@[j].rows(),
                        moduli,
                    ),
                forall|j: int| i <= j < k ==> (#[trigger] self.c@[j]).rows() == before[j].rows(),
            decreases k - i,
        {
            assert(rhs.polys()[i as int].fits(rhs.par.context()));
            self.c[i].sub_assign(&rhs.c[i], self.par.ctx());
            i += 1;
        }
        self.seed = None;
        assert(self.limbs() =~= sub_limbs(old(self).limbs(), rhs.limbs(), moduli));
        Ok(())
    }

    /// The difference of the ciphertext and `rhs`.
    pub fn sub(&self, rhs: &Ciphertext) -> (r: Result<Ciphertext, Error>)
        requires
            self.wf(),
            rhs.wf(),
        ensures
            match r {
                Ok(c) => c.wf() && *c.parameters() == *self.parameters() && self.difference_error(
                    rhs,
                ) is None && c.representation() == (if self.polys().len() == 0 {
                    rhs.representation()
                } else {
                    self.representation()
                }) && if self.polys().len() == 0 {
                    c.limbs() == neg_limbs(rhs.limbs(), rhs.parameters().moduli()@) && c.seed()
                        is None && c.level() == rhs.level()
                } else if rhs.polys().len() == 0 {
                    c.limbs() == self.limbs() && c.seed() == self.seed() && c.level()
                        == self.level()
                } else {
                    c.limbs() == sub_limbs(self.limbs(), rhs.limbs(), self.parameters().moduli()@)
                        && c.seed() is None && c.level() == self.level()
                },
                Err(e) => self.difference_error(rhs) == Some(e),
            },
    {
        let mut out = self.duplicate();
        proof {
            lemma_copy_wf(self, &out);
        }
        match out.sub_assign(rhs) {
            Ok(_) => Ok(out),
            Err(e) => Err(e),
        }
    }

    /// The failure, if any, of an operation with the plaintext `rhs` that
    /// needs a first ring element, in transformed form as the polynomial
    /// of the plaintext is.
    pub open spec fn plain_error(&self, rhs: &Plaintext) -> Option<Error> {
        if !self.parameters().same_as(rhs.parameters()) {
            Some(Error::ParameterMismatch)
        } else if self.polys().len() == 0 {
            Some(Error::EmptyCiphertext)
        } else if self.level() != rhs.level() {
            Some(Error::LevelMismatch)
        } else {
            self.transform_error()
        }
    }

    /// The rows that stand for the plaintext `rhs` in a ciphertext.
    pub open spec fn plain_rows_of(rhs: &Plaintext) -> Seq<Seq<u64>> {
        scaled_plain_rows(
            rhs.coefficients(),
            rhs.parameters().q_mod_t() as int,
            rhs.parameters().plaintext_modulus() as int,
            rhs.parameters().delta().rows(),
            rhs.parameters().moduli()@,
            rhs.parameters().degree() as nat,
        )
    }

    /// Adds the plaintext `rhs` to the ciphertext: its scaled polynomial is
    /// added to the first ring element. Fails where the two do not have the
    /// same parameters or level, or the ciphertext has no ring element or
    /// ring elements that are not in transformed form.
    pub fn add_assign_plaintext(&mut self, rhs: &Plaintext) -> (r: Result<(), Error>)
        requires
            old(self).wf(),
            rhs.wf(),
        ensures
            final(self).wf(),
            *final(self).parameters() == *old(self).parameters(),
            final(self).level() == old(self).level(),
            final(self).representation() == old(self).representation(),
            match r {
                Ok(_) => old(self).plain_error(rhs) is None && final(self).seed() is None
                    && final(self).limbs() == old(self).limbs().update(
                    0,
                    add_rows(
                        old(self).limbs()[0],
                        Self::plain_rows_of(rhs),
                        old(self).parameters().moduli()@,
                    ),
                ),
                Err(e) => old(self).plain_error(rhs) == Some(e) && final(self).limbs() == old(
                    self,
                ).limbs() && final(self).seed() == old(self).seed(),
            },
    {
        if !self.par.same_as(&rhs.par()) {
            return Err(Error::ParameterMismatch);
        }
        if self.c.len() == 0 {
            return Err(Error::EmptyCiphertext);
        }
        if self.level != rhs.level() {
            return Err(Error::LevelMismatch);
        }
        if self.c[0].representation() != Representation::Ntt {
            return Err(Error::Representation);
        }
        let poly = rhs.to_poly();
        assert(self.polys()[0].fits(self.par.context()));
        self.c[0].add_assign(&poly, self.par.ctx());
        self.seed = None;
        proof {
            assert(self.limbs() =~= old(self).limbs().update(
                0,
                add_rows(old(self).limbs()[0], Self::plain_rows_of(rhs), self.par.moduli()@),
            ));
            assert forall|i: int| 0 <= i < self.polys().len() implies (#[trigger] self.polys()[i]).fits(
                self.parameters().context(),
            ) && self.polys()[i].representation() == self.representation() by {
                if i > 0 {
                    assert(old(self).polys()[i].fits(self.parameters().context()));
                }
            }
        }
        Ok(())
    }

    /// The sum of the ciphertext and the plaintext `rhs`.
    pub fn add_plaintext(&self, rhs: &Plaintext) -> (r: Result<Ciphertext, Error>)
        requires
            self.wf(),
            rhs.wf(),
        ensures
            match r {
                Ok(c) => c.wf() && *c.parameters() == *self.parameters() && c.level()
                    == self.level() && self.plain_error(rhs) is None && c.seed() is None
                    && c.representation() == self.representation() && c.limbs() == self.limbs().update(
                    0,
                    add_rows(
                        self.limbs()[0],
                        Self::plain_rows_of(rhs),
                        self.parameters().moduli()@,
                    ),
                ),
                Err(e) => self.plain_error(rhs) == Some(e),
            },
    {
        let mut out = self.duplicate();
        proof {
            lemma_copy_wf(self, &out);
        }
        match out.add_assign_plaintext(rhs) {
            Ok(_) => Ok(out),
            Err(e) => Err(e),
        }
    }

    /// Subtracts the plaintext `rhs` from the ciphertext: its scaled
    /// polynomial is subtracted from the first ring element. Fails where
    /// the two do not have the same parameters or level, or the ciphertext
    /// has no ring element or ring elements that are not in transformed
    /// form.
    pub fn sub_assign_plaintext(&mut self, rhs: &Plaintext) -> (r: Result<(), Error>)
        requires
            old(self).wf(),
            rhs.wf(),
        ensures
            final(self).wf(),
            *final(self).parameters() == *old(self).parameters(),
            final(self).level() == old(self).level(),
            final(self).representation() == old(self).representation(),
            match r {
                Ok(_) => old(self).plain_error(rhs) is None && final(self).seed() is None
                    && final(self).limbs() == old(self).limbs().update(
                    0,
                    sub_rows(
                        old(self).limbs()[0],
                        Self::plain_rows_of(rhs),
                        old(self).parameters().moduli()@,
                    ),
                ),
                Err(e) => old(self).plain_error(rhs) == Some(e) && final(self).limbs() == old(
                    self,
                ).limbs() && final(self).seed() == old(self).seed(),
            },
    {
        if !self.par.same_as(&rhs.par()) {
            return Err(Error::ParameterMismatch);
        }
        if self.c.len() == 0 {
            return Err(Error::EmptyCiphertext);
        }
        if self.level != rhs.level() {
            return Err(Error::LevelMismatch);
        }
        if self.c[0].representation() != Representation::Ntt {
            return Err(Error::Representation);
        }
        let poly = rhs.to_poly();
        assert(self.polys()[0].fits(self.par.context()));
        self.c[0].sub_assign(&poly, self.par.ctx());
        self.seed = None;
        proof {
            assert(self.limbs() =~= old(self).limbs().update(
                0,
                sub_rows(old(self).limbs()[0], Self::plain_rows_of(rhs), self.par.moduli()@),
            ));
            assert forall|i: int| 0 <= i < self.polys().len() implies (#[trigger] self.polys()[i]).fits(
                self.parameters().context(),
            ) && self.polys()[i].representation() == self.representation() by {
                if i > 0 {
                    assert(old(self).polys()[i].fits(self.parameters().context()));
                }
            }
        }
        Ok(())
    }

    /// The difference of the ciphertext and the plaintext `rhs`.
    pub fn sub_plaintext(&self, rhs: &Plaintext) -> (r: Result<Ciphertext, Error>)
        requires
            self.wf(),
            rhs.wf(),
        ensures
            match r {
                Ok(c) => c.wf() && *c.parameters() == *self.parameters() && c.level()
                    == self.level() && self.plain_error(rhs) is None && c.seed() is None
                    && c.representation() == self.representation() && c.limbs() == self.limbs().update(
                    0,
                    sub_rows(
                        self.limbs()[0],
                        Self::plain_rows_of(rhs),
                        self.parameters().moduli()@,
                    ),
                ),
                Err(e) => self.plain_error(rhs) == Some(e),
            },
    {
        let mut out = self.duplicate();
        proof {
            lemma_copy_wf(self, &out);
        }
        match out.sub_assign_plaintext(rhs) {
            Ok(_) => Ok(out),
            Err(e) => Err(e),
        }
    }

    /// The failure, if any, of a multiplication by the plaintext `rhs`.
    pub open spec fn scale_error(&self, rhs: &Plaintext) -> Option<Error> {
        if !self.parameters().same_as(rhs.parameters()) {
            Some(Error::ParameterMismatch)
        } else if self.polys().len() > 0 && self.level() != rhs.level() {
            Some(Error::LevelMismatch)
        } else {
            self.transform_error()
        }
    }

    /// Multiplies the ciphertext by the plaintext `rhs`: each ring element
    /// by the transform of the plaintext. Fails where the two do not have
    /// the same parameters or level, or the ring elements are not in
    /// transformed form.
    pub fn mul_assign(&mut self, rhs: &Plaintext) -> (r: Result<(), Error>)
        requires
            old(self).wf(),
            rhs.wf(),
        ensures
            final(self).wf(),
            *final(self).parameters() == *old(self).parameters(),
            final(self).level() == old(self).level(),
            final(self).representation() == old(self).representation(),
            match r {
                Ok(_) => old(self).scale_error(rhs) is None && final(self).seed() is None
                    && final(self).limbs() == scale_limbs(
                    old(self).limbs(),
                    rhs.poly_ntt().rows(),
                    old(self).parameters().moduli()@,
                ),
                Err(e) => old(self).scale_error(rhs) == Some(e) && final(self).limbs() == old(
                    self,
                ).limbs() && final(self).seed() == old(self).seed(),
            },
    {
        if !self.par.same_as(&rhs.par()) {
            return Err(Error::ParameterMismatch);
        }
        if self.c.len() > 0 && self.level != rhs.level() {
            return Err(Error::LevelMismatch);
        }
        if self.representation() != Representation::Ntt {
            return Err(Error::Representation);
        }
        let k = self.c.len();
        let ghost moduli = self.par.moduli()@;
        let ghost before = self.c@;
        let mut i: usize = 0;
        while i < k
            invariant
                rhs.wf(),
                self.par == old(self).par,
                self.level == old(self).level,
                self.par.wf(),
                self.par.same_as(rhs.parameters()),
                moduli == self.par.moduli()@,
                before == old(self).c@,
                k == self.c.len(),
                k == before.len(),
                i <= k,
                forall|j: int|
                    0 <= j < k ==> (#[trigger] self.c@[j]).fits(self.par.context())
                        && self.c@[j].representation() == Representation::Ntt,
                forall|j: int|
                    0 <= j < i ==> (#[trigger] self.c@[j]).rows() == mul_rows(
                        before[j].rows(),
                        rhs.poly_ntt().rows(),
                        moduli,
                    ),
                forall|j: int| i <= j < k ==> (#[trigger] self.c@[j]).rows() == before[j].rows(),
            decreases k - i,
        {
            self.c[i].mul_assign(rhs.poly_ntt(), self.par.ctx());
            i += 1;
        }
        self.seed = None;
        assert(self.limbs() =~= scale_limbs(old(self).limbs(), rhs.poly_ntt().rows(), moduli));
        Ok(())
    }

    /// The product of the ciphertext and the plaintext `rhs`.
    pub fn mul(&self, rhs: &Plaintext) -> (r: Result<Ciphertext, Error>)
        requires
            self.wf(),
            rhs.wf(),
        ensures
            match r {
                Ok(c) => c.wf() && *c.parameters() == *self.parameters() && c.level()
                    == self.level() && self.scale_error(rhs) is None && c.seed() is None
                    && c.representation() == self.representation() && c.limbs() == scale_limbs(
                    self.limbs(),
                    rhs.poly_ntt().rows(),
                    self.parameters().moduli()@,
                ),
                Err(e) => self.scale_error(rhs) == Some(e),
            },
    {
        let mut out = self.duplicate();
        proof {
            lemma_copy_wf(self, &out);
        }
        match out.mul_assign(rhs) {
            Ok(_) => Ok(out),
            Err(e) => Err(e),
        }
    }
}

/// A copy of a well-formed ciphertext is well-formed.
pub proof fn lemma_copy_wf(source: &Ciphertext, copy: &Ciphertext)
    requires
        source.wf(),
        *copy.parameters() == *source.parameters(),
        copy.seed() == source.seed(),
        copy.limbs() == source.limbs(),
        copy.polys().len() == source.polys().len(),
        forall|i: int|
            0 <= i < copy.polys().len() ==> (#[trigger] copy.polys()[i]).companions()
                == source.polys()[i].companions() && copy.polys()[i].representation()
                == source.polys()[i].representation() && copy.polys()[i].rows()
                == source.polys()[i].rows(),
    ensures
        copy.wf(),
{
    assert forall|i: int| 0 <= i < copy.polys().len() implies (#[trigger] copy.polys()[i]).fits(
        copy.parameters().context(),
    ) && copy.polys()[i].representation() == copy.representation() by {
        assert(source.polys()[i].fits(source.parameters().context()));
        assert(source.polys()[0].fits(source.parameters().context()));
    }
}

impl Plaintext {
    /// The sum of the plaintext and the ciphertext `rhs`: the sum of `rhs`
    /// and the plaintext.
    pub fn add(&self, rhs: &Ciphertext) -> (r: Result<Ciphertext, Error>)
        requires
            self.wf(),
            rhs.wf(),
        ensures
            match r {
                Ok(c) => c.wf() && *c.parameters() == *rhs.parameters() && c.level() == rhs.level()
                    && rhs.plain_error(self) is None && c.seed() is None && c.representation()
                    == rhs.representation() && c.limbs() == rhs.limbs().update(
                    0,
                    add_rows(
                        rhs.limbs()[0],
                        Ciphertext::plain_rows_of(self),
                        rhs.parameters().moduli()@,
                    ),
                ),
                Err(e) => rhs.plain_error(self) == Some(e),
            },
    {
        rhs.add_plaintext(self)
    }

    /// The difference of the plaintext and the ciphertext `rhs`: the
    /// opposite of the difference of `rhs` and the plaintext.
    pub fn sub(&self, rhs: &Ciphertext) -> (r: Result<Ciphertext, Error>)
        requires
            self.wf(),
            rhs.wf(),
        ensures
            match r {
                Ok(c) => c.wf() && *c.parameters() == *rhs.parameters() && c.level() == rhs.level()
                    && rhs.plain_error(self) is None && c.seed() is None && c.representation()
                    == rhs.representation() && c.limbs() == neg_limbs(
                    rhs.limbs().update(
                        0,
                        sub_rows(
                            rhs.limbs()[0],
                            Ciphertext::plain_rows_of(self),
                            rhs.parameters().moduli()@,
                        ),
                    ),
                    rhs.parameters().moduli()@,
                ),
                Err(e) => rhs.plain_error(self) == Some(e),
            },
    {
        match rhs.sub_plaintext(self) {
            Ok(c) => c.neg(),
            Err(e) => Err(e),
        }
    }
}

} // verus!

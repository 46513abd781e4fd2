//! Multiplication of ciphertexts: the product of the ring elements in a
//! larger ring, scaled back, and the relinearization that brings the
//! result back to two ring elements.

use crate::ciphertext::Ciphertext;
use crate::errors::Error;
use crate::key_switching::{switched, EvaluationKey};
use crate::parameters::MultiplicationParameters;
use crate::rq::{
    add_rows, backward_rows, forward_rows, mul_rows, zero_rows, Poly, Representation,
};
use crate::scaler::{scaled_rows, Scaler};
use vstd::prelude::*;

verus! {

/// The rows of a transformed ring element carried by a converter into its
/// destination ring: brought to coefficient form, scaled, transformed.
pub open spec fn carried(x: Seq<Seq<u64>>, scaler: &Scaler) -> Seq<Seq<u64>> {
    let n = scaler.target().degree() as nat;
    forward_rows(
        scaled_rows(
            backward_rows(x, scaler.source().moduli()@, n),
            scaler.source().moduli()@,
            scaler.target().moduli()@,
            n,
            scaler.num(),
            scaler.den(),
        ),
        scaler.target().moduli()@,
        n,
    )
}

/// The rows of a transformed ring element brought down by a converter, in
/// coefficient form: brought to coefficient form and scaled.
pub open spec fn lowered(x: Seq<Seq<u64>>, scaler: &Scaler) -> Seq<Seq<u64>> {
    let n = scaler.target().degree() as nat;
    scaled_rows(
        backward_rows(x, scaler.source().moduli()@, n),
        scaler.source().moduli()@,
        scaler.target().moduli()@,
        n,
        scaler.num(),
        scaler.den(),
    )
}

/// The three ring elements of the product of two pairs of ring elements in
/// the extended ring.
pub open spec fn tensor(a: Seq<Seq<Seq<u64>>>, b: Seq<Seq<Seq<u64>>>, moduli: Seq<u64>) -> Seq<
    Seq<Seq<u64>>,
> {
    seq![
        mul_rows(a[0], b[0], moduli),
        add_rows(mul_rows(a[0], b[1], moduli), mul_rows(a[1], b[0], moduli), moduli),
        mul_rows(a[1], b[1], moduli),
    ]
}

/// The two limbs of the relinearized product of two ciphertexts of two
/// limbs each: the operands carried into the extended ring, multiplied,
/// brought down, and the third ring element folded into the first two by
/// the key.
pub open spec fn product_limbs(
    a: Seq<Seq<Seq<u64>>>,
    b: Seq<Seq<Seq<u64>>>,
    mp: &MultiplicationParameters,
    bodies: Seq<Seq<Seq<u64>>>,
    masks: Seq<Seq<Seq<u64>>>,
) -> Seq<Seq<Seq<u64>>> {
    let base = mp.down_scaler().target().moduli()@;
    let n = mp.down_scaler().target().degree() as nat;
    let t = tensor(
        seq![carried(a[0], mp.extender_self()), carried(a[1], mp.extender_self())],
        seq![carried(b[0], mp.extender_other()), carried(b[1], mp.extender_other())],
        mp.extended().moduli()@,
    );
    let d2 = lowered(t[2], mp.down_scaler());
    seq![
        switched(forward_rows(lowered(t[0], mp.down_scaler()), base, n), d2, bodies, base, n, base.len()),
        switched(forward_rows(lowered(t[1], mp.down_scaler()), base, n), d2, masks, base, n, base.len()),
    ]
}

/// The failure, if any, of the relinearized product of two ciphertexts,
/// in the order in which the tests are made: the capability of the key,
/// the parameters of the two ciphertexts, the single modulus, the number
/// of ring elements and their form, and only then the parameters of the
/// key and the levels.
pub open spec fn product_error(ct0: &Ciphertext, ct1: &Ciphertext, ek: &EvaluationKey) -> Option<
    Error,
> {
    if ek.relinearization_key() is None {
        Some(Error::NoRelinearization)
    } else if !ct0.parameters().same_as(ct1.parameters()) {
        Some(Error::ParameterMismatch)
    } else if ct0.parameters().moduli()@.len() == 1 {
        Some(Error::SingleModulus)
    } else if ct0.polys().len() != 2 || ct1.polys().len() != 2 {
        Some(Error::LimbCount)
    } else if ct0.representation() != Representation::Ntt || ct1.representation()
        != Representation::Ntt {
        Some(Error::Representation)
    } else if !ct0.parameters().same_as(ek.parameters()) {
        Some(Error::ParameterMismatch)
    } else if ct0.level() != ct1.level() {
        Some(Error::LevelMismatch)
    } else {
        None
    }
}

/// The sum of the products of the ring elements of `a` and `b` whose
/// indices add up to `l`, over the first `i` ring elements of `a`.
pub open spec fn convolution_at(
    a: Seq<Seq<Seq<u64>>>,
    b: Seq<Seq<Seq<u64>>>,
    moduli: Seq<u64>,
    degree: nat,
    l: int,
    i: nat,
) -> Seq<Seq<u64>>
    decreases i,
{
    if i == 0 {
        zero_rows(moduli.len(), degree)
    } else {
        let before = convolution_at(a, b, moduli, degree, l, (i - 1) as nat);
        if 0 <= l - (i - 1) < b.len() {
            add_rows(before, mul_rows(a[i - 1], b[l - (i - 1)], moduli), moduli)
        } else {
            before
        }
    }
}

/// The limbs of the product of two ciphertexts without relinearization:
/// the operands carried into the extended ring, convolved, and each ring
/// element brought down and transformed.
pub open spec fn convolved_limbs(
    a: Seq<Seq<Seq<u64>>>,
    b: Seq<Seq<Seq<u64>>>,
    mp: &MultiplicationParameters,
) -> Seq<Seq<Seq<u64>>> {
    let base = mp.down_scaler().target().moduli()@;
    let ext = mp.extended().moduli()@;
    let n = mp.down_scaler().target().degree() as nat;
    let ea = Seq::new(a.len(), |i: int| carried(a[i], mp.extender_self()));
    let eb = Seq::new(b.len(), |i: int| carried(b[i], mp.extender_self()));
    Seq::new(
        (a.len() + b.len() - 1) as nat,
        |l: int|
            forward_rows(
                lowered(convolution_at(ea, eb, ext, n, l, a.len()), mp.down_scaler()),
                base,
                n,
            ),
    )
}

/// The failure, if any, of the product of two ciphertexts without
/// relinearization: none where the first has no ring element; the ring
/// elements of both must be in transformed form.
pub open spec fn convolution_error(ct0: &Ciphertext, ct1: &Ciphertext) -> Option<Error> {
    if !ct0.parameters().same_as(ct1.parameters()) {
        Some(Error::ParameterMismatch)
    } else if ct0.polys().len() == 0 {
        None
    } else if ct0.level() != ct1.level() {
        Some(Error::LevelMismatch)
    } else if ct0.representation() != Representation::Ntt || ct1.representation()
        != Representation::Ntt {
        Some(Error::Representation)
    } else if ct0.polys().len() - 1 + ct1.polys().len() > usize::MAX {
        Some(Error::LimbCount)
    } else {
        None
    }
}

/// The transformed ring element `p` carried by the converter into its
/// destination ring.
pub fn carry(p: &Poly, scaler: &Scaler) -> (r: Poly)
    requires
        scaler.wf(),
        p.fits(scaler.source()),
        p.representation() == Representation::Ntt,
    ensures
        r.fits(scaler.target()),
        r.representation() == Representation::Ntt,
        r.rows() == carried(p.rows(), scaler),
{
    proof {
        scaler.lemma_wf();
    }
    let mut x = p.duplicate();
    x.change_representation(Representation::PowerBasis, scaler.source_context());
    let mut y = match scaler.scale(&x) {
        Ok(y) => y,
        Err(_) => Poly::zero(scaler.target_context(), Representation::PowerBasis),
    };
    y.change_representation(Representation::Ntt, scaler.target_context());
    y
}

/// The transformed ring element `p` brought down by the converter, in
/// coefficient form.
pub fn lower(p: &Poly, scaler: &Scaler) -> (r: Poly)
    requires
        scaler.wf(),
        p.fits(scaler.source()),
        p.representation() == Representation::Ntt,
    ensures
        r.fits(scaler.target()),
        r.representation() == Representation::PowerBasis,
        r.rows() == lowered(p.rows(), scaler),
{
    proof {
        scaler.lemma_wf();
    }
    let mut x = p.duplicate();
    x.change_representation(Representation::PowerBasis, scaler.source_context());
    match scaler.scale(&x) {
        Ok(y) => y,
        Err(_) => Poly::zero(scaler.target_context(), Representation::PowerBasis),
    }
}

/// The relinearized product of two ciphertexts of two ring elements each,
/// with the given converters; fails where the key cannot relinearize, the
/// parameters or the levels differ, there is a single ciphertext modulus,
/// or an operand does not have two ring elements in transformed form.
fn mul_internal(
    ct0: &Ciphertext,
    ct1: &Ciphertext,
    ek: &EvaluationKey,
    mp: &MultiplicationParameters,
) -> (r: Result<Ciphertext, Error>)
    requires
        ct0.wf(),
        ct1.wf(),
        ek.wf(),
        mp.wf(ct0.parameters().context()),
    ensures
        match r {
            Ok(c) => product_error(ct0, ct1, ek) is None && c.wf() && *c.parameters()
                == *ct0.parameters() && c.level() == ct0.level() && c.seed() is None
                && c.polys().len() == 2 && c.representation() == Representation::Ntt
                && c.limbs() == product_limbs(
                ct0.limbs(),
                ct1.limbs(),
                mp,
                ek.relinearization_key().unwrap().body_limbs(),
                ek.relinearization_key().unwrap().mask_limbs(),
            ),
            Err(e) => product_error(ct0, ct1, ek) == Some(e),
        },
{
    if !ek.supports_relinearization() {
        return Err(Error::NoRelinearization);
    }
    if !ct0.par().same_as(ct1.par()) {
        return Err(Error::ParameterMismatch);
    }
    if ct0.par().moduli().len() == 1 {
        return Err(Error::SingleModulus);
    }
    if ct0.len() != 2 || ct1.len() != 2 {
        return Err(Error::LimbCount);
    }
    if ct0.representation() != Representation::Ntt || ct1.representation()
        != Representation::Ntt {
        return Err(Error::Representation);
    }
    if !ct0.par().same_as(ek.par()) {
        return Err(Error::ParameterMismatch);
    }
    if ct0.level() != ct1.level() {
        return Err(Error::LevelMismatch);
    }
    let par = ct0.par();
    let ctx = par.ctx();
    proof {
        assert(ct0.polys()[0].fits(ct0.parameters().context()));
        assert(ct0.polys()[1].fits(ct0.parameters().context()));
        assert(ct1.polys()[0].fits(ct1.parameters().context()));
        assert(ct1.polys()[1].fits(ct1.parameters().context()));
        mp.extender_self().lemma_wf();
        mp.extender_other().lemma_wf();
        mp.down_scaler().lemma_wf();
    }
    // Extend
    let c00 = carry(ct0.get(0), mp.extender_self());
    let c01 = carry(ct0.get(1), mp.extender_self());
    let c10 = carry(ct1.get(0), mp.extender_other());
    let c11 = carry(ct1.get(1), mp.extender_other());
    // Multiply
    let ext = mp.extended_context();
    let mut c0 = c00.duplicate();
    c0.mul_assign(&c10, ext);
    let mut c1 = c00.duplicate();
    c1.mul_assign(&c11, ext);
    let mut c01_c10 = c01.duplicate();
    c01_c10.mul_assign(&c10, ext);
    c1.add_assign(&c01_c10, ext);
    let mut c2 = c01.duplicate();
    c2.mul_assign(&c11, ext);
    // Scale
    let mut c0 = lower(&c0, mp.down_scaler());
    let mut c1 = lower(&c1, mp.down_scaler());
    let c2 = lower(&c2, mp.down_scaler());
    // Relinearize
    c0.change_representation(Representation::Ntt, ctx);
    c1.change_representation(Representation::Ntt, ctx);
    match ek.relinearizes(&mut c0, &mut c1, &c2) {
        Ok(_) => {},
        Err(e) => {
            return Err(e);
        },
    }
    let ghost want = product_limbs(
        ct0.limbs(),
        ct1.limbs(),
        mp,
        ek.relinearization_key().unwrap().body_limbs(),
        ek.relinearization_key().unwrap().mask_limbs(),
    );
    proof {
        assert(ct0.limbs()[0] == ct0.polys()[0].rows());
        assert(ct0.limbs()[1] == ct0.polys()[1].rows());
        assert(ct1.limbs()[0] == ct1.polys()[0].rows());
        assert(ct1.limbs()[1] == ct1.polys()[1].rows());
        assert(c0.rows() == want[0]);
        assert(c1.rows() == want[1]);
    }
    let c = vec![c0, c1];
    let out = Ciphertext::from_parts(par, None, c, ct0.level());
    proof {
        assert(out.limbs() =~= want);
    }
    Ok(out)
}

/// The relinearized product of two ciphertexts, through a ring extended by
/// enough moduli for some 60 binary digits more than the ciphertext
/// modulus.
pub fn mul(ct0: &Ciphertext, ct1: &Ciphertext, ek: &EvaluationKey) -> (r: Result<Ciphertext, Error>)
    requires
        ct0.wf(),
        ct1.wf(),
        ek.wf(),
    ensures
        match r {
            Ok(c) => product_error(ct0, ct1, ek) is None && c.wf() && *c.parameters()
                == *ct0.parameters() && c.level() == ct0.level() && c.seed() is None
                && c.polys().len() == 2 && c.representation() == Representation::Ntt
                && c.limbs() == product_limbs(
                ct0.limbs(),
                ct1.limbs(),
                ct0.parameters().mul_1_params(),
                ek.relinearization_key().unwrap().body_limbs(),
                ek.relinearization_key().unwrap().mask_limbs(),
            ),
            Err(e) => product_error(ct0, ct1, ek) == Some(e),
        },
{
    mul_internal(ct0, ct1, ek, ct0.par().mul_1_params())
}

/// The relinearized product of two ciphertexts, through a ring extended by
/// as many moduli as the ciphertext modulus has, the second operand being
/// scaled into them.
pub fn mul2(ct0: &Ciphertext, ct1: &Ciphertext, ek: &EvaluationKey) -> (r: Result<
    Ciphertext,
    Error,
>)
    requires
        ct0.wf(),
        ct1.wf(),
        ek.wf(),
    ensures
        match r {
            Ok(c) => product_error(ct0, ct1, ek) is None && c.wf() && *c.parameters()
                == *ct0.parameters() && c.level() == ct0.level() && c.seed() is None
                && c.polys().len() == 2 && c.representation() == Representation::Ntt
                && c.limbs() == product_limbs(
                ct0.limbs(),
                ct1.limbs(),
                ct0.parameters().mul_2_params(),
                ek.relinearization_key().unwrap().body_limbs(),
                ek.relinearization_key().unwrap().mask_limbs(),
            ),
            Err(e) => product_error(ct0, ct1, ek) == Some(e),
        },
{
    mul_internal(ct0, ct1, ek, ct0.par().mul_2_params())
}

impl Ciphertext {
    /// The product of the ciphertext and `rhs` without relinearization: a
    /// ciphertext with one ring element less than the two have together,
    /// or a copy of the ciphertext where it has no ring element. Fails
    /// where the parameters or the levels differ, the ring elements are
    /// not in transformed form, or those of the result cannot be counted.
    pub fn mul_ciphertext(&self, rhs: &Ciphertext) -> (r: Result<Ciphertext, Error>)
        requires
            self.wf(),
            rhs.wf(),
        ensures
            match r {
                Ok(c) => convolution_error(self, rhs) is None && c.wf() && *c.parameters()
                    == *self.parameters() && c.level() == self.level() && c.seed() is None
                    && c.representation() == Representation::Ntt && c.limbs() == (if self.polys().len() == 0 {
                    self.limbs()
                } else {
                    convolved_limbs(self.limbs(), rhs.limbs(), self.parameters().mul_1_params())
                }),
                Err(e) => convolution_error(self, rhs) == Some(e),
            },
    {
        if !self.par().same_as(rhs.par()) {
            return Err(Error::ParameterMismatch);
        }
        if self.len() == 0 {
            let out = self.duplicate();
            proof {
                crate::ciphertext::lemma_copy_wf(self, &out);
            }
            return Ok(out);
        }
        if self.level() != rhs.level() {
            return Err(Error::LevelMismatch);
        }
        if self.representation() != Representation::Ntt || rhs.representation()
            != Representation::Ntt {
            return Err(Error::Representation);
        }
        let par = self.par();
        let ctx = par.ctx();
        let mp = par.mul_1_params();
        let ext = mp.extended_context();
        proof {
            mp.extender_self().lemma_wf();
            mp.down_scaler().lemma_wf();
        }
        let ghost a = self.limbs();
        let ghost b = rhs.limbs();
        let ghost ea = Seq::new(a.len(), |i: int| carried(a[i], mp.extender_self()));
        let ghost eb = Seq::new(b.len(), |i: int| carried(b[i], mp.extender_self()));
        let ghost em = mp.extended().moduli()@;
        let ghost n = par.degree() as nat;
        let ghost want = convolved_limbs(a, b, mp);
        // Extend
        let na = self.len();
        let nb = rhs.len();
        let mut self_c: Vec<Poly> = Vec::with_capacity(na);
        let mut i: usize = 0;
        while i < na
            invariant
                self.wf(),
                self.representation() == Representation::Ntt,
                mp.wf(self.parameters().context()),
                mp == self.parameters().mul_1_params(),
                a == self.limbs(),
                na == self.polys().len(),
                i <= na,
                self_c.len() == i,
                forall|j: int|
                    0 <= j < i ==> (#[trigger] self_c@[j]).fits(mp.extended())
                        && self_c@[j].representation() == Representation::Ntt && self_c@[j].rows()
                        == carried(a[j], mp.extender_self()),
            decreases na - i,
        {
            assert(self.polys()[i as int].fits(self.parameters().context()));
            self_c.push(carry(self.get(i), mp.extender_self()));
            i += 1;
        }
        let mut other_c: Vec<Poly> = Vec::with_capacity(nb);
        let mut i: usize = 0;
        while i < nb
            invariant
                rhs.wf(),
                rhs.representation() == Representation::Ntt,
                self.parameters().same_as(rhs.parameters()),
                self.parameters().wf(),
                mp.wf(self.parameters().context()),
                mp == self.parameters().mul_1_params(),
                b == rhs.limbs(),
                nb == rhs.polys().len(),
                i <= nb,
                other_c.len() == i,
                forall|j: int|
                    0 <= j < i ==> (#[trigger] other_c@[j]).fits(mp.extended())
                        && other_c@[j].representation() == Representation::Ntt
                        && other_c@[j].rows() == carried(b[j], mp.extender_self()),
            decreases nb - i,
        {
            assert(rhs.polys()[i as int].fits(rhs.parameters().context()));
            other_c.push(carry(rhs.get(i), mp.extender_self()));
            i += 1;
        }
        // Multiply, and scale each ring element of the product
        let total = match (na - 1).checked_add(nb) {
            Some(t) => t,
            None => {
                return Err(Error::LimbCount);
            },
        };
        let mut c: Vec<Poly> = Vec::with_capacity(total);
        let mut l: usize = 0;
        while l < total
            invariant
                self.parameters().wf(),
                **ctx == *self.parameters().context(),
                **ext == *mp.extended(),
                mp.wf(self.parameters().context()),
                mp == self.parameters().mul_1_params(),
                em == mp.extended().moduli()@,
                n == self.parameters().degree() as nat,
                na == a.len(),
                nb == b.len(),
                na >= 1,
                total == na - 1 + nb,
                self_c.len() == na,
                other_c.len() == nb,
                ea == Seq::new(a.len(), |i: int| carried(a[i], mp.extender_self())),
                eb == Seq::new(b.len(), |i: int| carried(b[i], mp.extender_self())),
                want == convolved_limbs(a, b, mp),
                forall|j: int|
                    0 <= j < na ==> (#[trigger] self_c@[j]).fits(mp.extended())
                        && self_c@[j].representation() == Representation::Ntt && self_c@[j].rows()
                        == ea[j],
                forall|j: int|
                    0 <= j < nb ==> (#[trigger] other_c@[j]).fits(mp.extended())
                        && other_c@[j].representation() == Representation::Ntt
                        && other_c@[j].rows() == eb[j],
                l <= total,
                c.len() == l,
                forall|j: int|
                    0 <= j < l ==> (#[trigger] c@[j]).fits(self.parameters().context())
                        && c@[j].representation() == Representation::Ntt && c@[j].rows()
                        == want[j],
            decreases total - l,
        {
            let mut acc = Poly::zero(ext, Representation::Ntt);
            let mut i: usize = 0;
            while i < na
                invariant
                    **ext == *mp.extended(),
                    mp.extended().wf(),
                    em == mp.extended().moduli()@,
                    n == mp.extended().degree() as nat,
                    na == a.len(),
                    nb == b.len(),
                    l < na - 1 + nb,
                    self_c.len() == na,
                    other_c.len() == nb,
                    ea.len() == na,
                    eb.len() == nb,
                    forall|j: int|
                        0 <= j < na ==> (#[trigger] self_c@[j]).fits(mp.extended())
                            && self_c@[j].representation() == Representation::Ntt
                            && self_c@[j].rows() == ea[j],
                    forall|j: int|
                        0 <= j < nb ==> (#[trigger] other_c@[j]).fits(mp.extended())
                            && other_c@[j].representation() == Representation::Ntt
                            && other_c@[j].rows() == eb[j],
                    i <= na,
                    acc.fits(mp.extended()),
                    acc.representation() == Representation::Ntt,
                    acc.rows() == convolution_at(ea, eb, em, n, l as int, i as nat),
                decreases na - i,
            {
                if i <= l && l - i < nb {
                    let mut term = self_c[i].duplicate();
                    term.mul_assign(&other_c[l - i], ext);
                    acc.add_assign(&term, ext);
                }
                i += 1;
            }
            let mut d = lower(&acc, mp.down_scaler());
            d.change_representation(Representation::Ntt, ctx);
            c.push(d);
            l += 1;
        }
        let out = Ciphertext::from_parts(par, None, c, self.level());
        proof {
            assert(out.limbs() =~= want);
        }
        Ok(out)
    }
}

} // verus!

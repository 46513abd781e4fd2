//! The wire forms of ring elements and of ciphertexts: plain data that a
//! serializer can write and read. A ciphertext with a seed is written
//! without its last ring element, which the seed gives again.

use crate::ciphertext::Ciphertext;
use crate::errors::Error;
use crate::parameters::BfvParameters;
use crate::rq::{rows_of, well_shaped, Context, Poly, Representation};
use std::rc::Rc;
use vstd::prelude::*;

verus! {

/// The wire form of a ring element.
#[derive(Debug, Clone, PartialEq, Eq)]
pub struct Rq {
    /// The form in which the ring element is held.
    pub representation: Representation,
    /// The residues of the ring element: one row for each modulus.
    pub coefficients: Vec<Vec<u64>>,
}

/// The wire form of a ciphertext.
#[derive(Debug, Clone, PartialEq, Eq)]
pub struct CiphertextProto {
    /// The ring elements, without the last one where there is a seed.
    pub c: Vec<Rq>,
    /// The seed of the last ring element, or nothing.
    pub seed: Vec<u8>,
    /// The level of the ciphertext.
    pub level: usize,
}

/// The bytes of an optional seed: the seed, or nothing.
pub open spec fn seed_bytes(seed: Option<[u8; 32]>) -> Seq<u8> {
    match seed {
        Some(s) => s@,
        None => Seq::<u8>::empty(),
    }
}

/// The number of ring elements that the wire form of a ciphertext holds.
pub open spec fn written_count(ct: &Ciphertext) -> int {
    if ct.seed() is Some {
        ct.polys().len() - 1
    } else {
        ct.polys().len() as int
    }
}

/// `value` is the wire form of the ciphertext `ct`.
pub open spec fn encodes(value: &CiphertextProto, ct: &Ciphertext) -> bool {
    &&& value.level == ct.level()
    &&& value.seed@ == seed_bytes(ct.seed())
    &&& value.c@.len() == written_count(ct)
    &&& forall|i: int|
        0 <= i < value.c@.len() ==> (#[trigger] value.c@[i]).representation
            == ct.polys()[i].representation() && rows_of(value.c@[i].coefficients)
            == ct.limbs()[i]
}

/// The form that the ring elements of a wire form must share: the
/// transformed one where there is a seed, whose ring element has it, and
/// else the form of the first.
pub open spec fn wire_representation(value: &CiphertextProto) -> Representation {
    if value.seed@.len() != 0 || value.c@.len() == 0 {
        Representation::Ntt
    } else {
        value.c@[0].representation
    }
}

/// The wire form holds a ring element of the ring.
pub open spec fn readable(value: Rq, moduli: Seq<u64>, degree: nat) -> bool {
    well_shaped(rows_of(value.coefficients), moduli, degree)
}

/// The failure, if any, of reading a ciphertext from its wire form: there
/// are not enough ring elements, one of them is no ring element of the
/// ring, the seed does not have 32 bytes, or the ring elements do not
/// share one form.
pub open spec fn decode_error(value: &CiphertextProto, par: &BfvParameters) -> Option<Error> {
    if value.c@.len() == 0 || (value.c@.len() == 1 && value.seed@.len() == 0) {
        Some(Error::NotEnoughPolynomials)
    } else if exists|i: int|
        0 <= i < value.c@.len() && !readable(
            #[trigger] value.c@[i],
            par.moduli()@,
            par.degree() as nat,
        ) {
        Some(Error::InvalidPolynomial)
    } else if value.seed@.len() != 0 && value.seed@.len() != 32 {
        Some(Error::InvalidSeed)
    } else if exists|i: int|
        0 <= i < value.c@.len() && (#[trigger] value.c@[i]).representation != wire_representation(
            value,
        ) {
        Some(Error::InvalidPolynomial)
    } else {
        None
    }
}

/// The ciphertext `ct` is the one read from the wire form `value`: its
/// ring elements are the written ones, in the form in which they were
/// written, and the one that the seed gives.
pub open spec fn decodes(value: &CiphertextProto, par: &BfvParameters, ct: &Ciphertext) -> bool {
    &&& *ct.parameters() == *par
    &&& ct.level() == value.level
    &&& seed_bytes(ct.seed()) == value.seed@
    &&& ct.seed() is Some <==> value.seed@.len() != 0
    &&& written_count(ct) == value.c@.len()
    &&& ct.representation() == wire_representation(value)
    &&& forall|i: int|
        0 <= i < value.c@.len() ==> (#[trigger] ct.limbs()[i]) == rows_of(value.c@[i].coefficients)
}

/// Wire round trip: a well-formed ciphertext of at least two ring elements
/// is read back from its wire form without failure, with the same ring
/// elements in the same form, the same seed and the same level.
pub proof fn lemma_wire_round_trip(ct: &Ciphertext, value: &CiphertextProto, back: &Ciphertext)
    requires
        ct.wf(),
        ct.polys().len() >= 2,
        encodes(value, ct),
        back.wf(),
        decodes(value, ct.parameters(), back),
    ensures
        decode_error(value, ct.parameters()) is None,
        back.limbs() == ct.limbs(),
        back.representation() == ct.representation(),
        seed_bytes(back.seed()) == seed_bytes(ct.seed()),
        back.seed() is Some <==> ct.seed() is Some,
        back.level() == ct.level(),
        *back.parameters() == *ct.parameters(),
{
    let par = ct.parameters();
    assert(ct.polys()[0].fits(par.context()));
    assert(value.c@[0].representation == ct.polys()[0].representation());
    assert(wire_representation(value) == ct.representation());
    assert forall|i: int| 0 <= i < value.c@.len() implies readable(
        #[trigger] value.c@[i],
        par.moduli()@,
        par.degree() as nat,
    ) && value.c@[i].representation == wire_representation(value) by {
        assert(ct.polys()[i].fits(par.context()));
        assert(ct.limbs()[i] == ct.polys()[i].rows());
    }
    if ct.seed() is Some {
        assert(ct.seed().unwrap()@.len() == 32);
    }
    assert(back.polys().len() == ct.polys().len());
    assert forall|i: int| 0 <= i < ct.polys().len() implies back.limbs()[i] == ct.limbs()[i] by {
        if i < value.c@.len() {
            assert(back.limbs()[i] == rows_of(value.c@[i].coefficients));
        } else {
            let k = ct.polys().len() as int;
            assert(i == k - 1);
            assert(ct.polys().last().rows() == ct.limbs()[k - 1]);
            assert(back.polys().last().rows() == back.limbs()[k - 1]);
            assert(back.seed().unwrap()@ =~= ct.seed().unwrap()@);
        }
    }
    assert(back.limbs() =~= ct.limbs());
}

impl Rq {
    /// The wire form of the ring element.
    pub fn from(p: &Poly) -> (r: Rq)
        ensures
            r.representation == p.representation(),
            rows_of(r.coefficients) == p.rows(),
    {
        Rq { representation: p.representation(), coefficients: p.to_rows() }
    }
}

impl Poly {
    /// The ring element read from its wire form; fails where the rows do
    /// not have the shape of the ring.
    pub fn try_convert_from(value: &Rq, ctx: &Context) -> (r: Result<Poly, Error>)
        requires
            ctx.wf(),
        ensures
            r is Ok <==> well_shaped(
                rows_of(value.coefficients),
                ctx.moduli()@,
                ctx.degree() as nat,
            ),
            r matches Ok(p) ==> p.fits(ctx) && p.rows() == rows_of(value.coefficients)
                && p.representation() == value.representation && !p.variable_time(),
            r matches Err(e) ==> e == Error::InvalidPolynomial,
    {
        let k = value.coefficients.len();
        let mut rows: Vec<Vec<u64>> = Vec::with_capacity(k);
        let mut i: usize = 0;
        while i < k
            invariant
                k == value.coefficients.len(),
                i <= k,
                rows.len() == i,
                forall|j: int| 0 <= j < i ==> (#[trigger] rows@[j])@ == value.coefficients@[j]@,
            decreases k - i,
        {
            rows.push(value.coefficients[i].clone());
            i += 1;
        }
        assert(rows_of(rows) =~= rows_of(value.coefficients));
        Poly::from_rows(rows, value.representation, ctx)
    }
}

impl CiphertextProto {
    /// The wire form of a ciphertext of at least one ring element.
    pub fn from(ct: &Ciphertext) -> (r: CiphertextProto)
        requires
            ct.wf(),
            ct.polys().len() >= 1,
        ensures
            encodes(&r, ct),
    {
        let k = ct.len();
        let count = if ct.seed().is_some() {
            k - 1
        } else {
            k
        };
        let mut c: Vec<Rq> = Vec::with_capacity(count);
        let mut i: usize = 0;
        while i < count
            invariant
                count <= ct.polys().len(),
                i <= count,
                c.len() == i,
                forall|j: int|
                    0 <= j < i ==> (#[trigger] c@[j]).representation
                        == ct.polys()[j].representation() && rows_of(c@[j].coefficients)
                        == ct.limbs()[j],
            decreases count - i,
        {
            c.push(Rq::from(ct.get(i)));
            i += 1;
        }
        let mut seed: Vec<u8> = Vec::new();
        match ct.seed() {
            Some(s) => {
                let mut j: usize = 0;
                while j < 32
                    invariant
                        j <= 32,
                        seed.len() == j,
                        forall|l: int| 0 <= l < j ==> seed@[l] == s@[l],
                    decreases 32 - j,
                {
                    seed.push(s[j]);
                    j += 1;
                }
                assert(seed@ =~= s@);
            },
            None => {},
        }
        CiphertextProto { c, seed, level: ct.level() }
    }
}

impl Ciphertext {
    /// The ciphertext read from its wire form, its ring elements in the
    /// form in which they were written and open to work in variable time.
    /// Fails where the wire form holds no ring element, or a single one
    /// and no seed, something that is no ring element of the ring, a seed
    /// that does not have 32 bytes, or ring elements that do not share one
    /// form, which beside a seed is the transformed one.
    pub fn try_convert_from(value: &CiphertextProto, par: &Rc<BfvParameters>) -> (r: Result<
        Ciphertext,
        Error,
    >)
        requires
            par.wf(),
        ensures
            match r {
                Ok(ct) => decode_error(value, &**par) is None && ct.wf() && ct.variable_time()
                    && decodes(value, &**par, &ct),
                Err(e) => decode_error(value, &**par) == Some(e),
            },
    {
        let k = value.c.len();
        if k == 0 || (k == 1 && value.seed.len() == 0) {
            return Err(Error::NotEnoughPolynomials);
        }
        let ctx = par.ctx();
        let mut c: Vec<Poly> = Vec::with_capacity(k);
        let mut i: usize = 0;
        while i < k
            invariant
                par.wf(),
                **ctx == *par.context(),
                k == value.c.len(),
                !(k == 0 || (k == 1 && value.seed.len() == 0)),
                i <= k,
                c.len() == i,
                forall|j: int|
                    0 <= j < i ==> readable(
                        #[trigger] value.c@[j],
                        par.moduli()@,
                        par.degree() as nat,
                    ),
                forall|j: int|
                    0 <= j < i ==> (#[trigger] c@[j]).fits(par.context())
                        && c@[j].representation() == value.c@[j].representation
                        && c@[j].variable_time() && c@[j].rows() == rows_of(
                        value.c@[j].coefficients,
                    ),
            decreases k - i,
        {
            let mut ci = match Poly::try_convert_from(&value.c[i], ctx) {
                Ok(p) => p,
                Err(e) => {
                    proof {
                        assert(!readable(value.c@[i as int], par.moduli()@, par.degree() as nat));
                    }
                    return Err(e);
                },
            };
            ci.allow_variable_time_computations();
            c.push(ci);
            i += 1;
        }
        if value.seed.len() != 0 && value.seed.len() != 32 {
            return Err(Error::InvalidSeed);
        }
        let form = if value.seed.len() != 0 {
            Representation::Ntt
        } else {
            value.c[0].representation
        };
        let mut l: usize = 0;
        while l < k
            invariant
                par.wf(),
                k == value.c.len(),
                !(k == 0 || (k == 1 && value.seed.len() == 0)),
                !(value.seed.len() != 0 && value.seed.len() != 32),
                l <= k,
                form == wire_representation(value),
                forall|j: int|
                    0 <= j < k ==> readable(
                        #[trigger] value.c@[j],
                        par.moduli()@,
                        par.degree() as nat,
                    ),
                forall|j: int| 0 <= j < l ==> (#[trigger] value.c@[j]).representation == form,
            decreases k - l,
        {
            if value.c[l].representation != form {
                proof {
                    assert(value.c@[l as int].representation != wire_representation(value));
                }
                return Err(Error::InvalidPolynomial);
            }
            l += 1;
        }
        let mut seed: Option<[u8; 32]> = None;
        let ghost old_c = c@;
        if value.seed.len() != 0 {
            let s = crate::key_switching::seed_at(&value.seed, 0);
            proof {
                assert(s@ =~= value.seed@);
            }
            let mut c1 = Poly::random_from_seed(ctx, Representation::Ntt, &s);
            c1.allow_variable_time_computations();
            c.push(c1);
            seed = Some(s);
            proof {
                assert(forall|j: int| 0 <= j < k ==> c@[j] == old_c[j]);
            }
        }
        let ghost polys = c@;
        let ct = Ciphertext::from_parts(par, seed, c, value.level);
        proof {
            assert(ct.polys() == polys);
            assert forall|i: int| 0 <= i < value.c@.len() implies (#[trigger] ct.limbs()[i])
                == rows_of(value.c@[i].coefficients) by {
                assert(ct.limbs()[i] == ct.polys()[i].rows());
            }
            if value.seed@.len() == 0 {
                assert(value.seed@ =~= Seq::<u8>::empty());
            }
        }
        Ok(ct)
    }
}

} // verus!

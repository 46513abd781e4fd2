//! Elements of the ring `Z_Q[x] / (x^n + 1)`, held by their residues modulo
//! each modulus of a basis, in coefficient or in transformed form.

use crate::bigint::big_value;
use crate::errors::Error;
use crate::ntt::{
    backward_transform, forward_transform, inv_twiddles, lemma_intt_shape, lemma_ntt_shape,
    primitive_root, twiddles, NttOperator,
};
use crate::primes::{check_power_of_two, is_power_of_two, supports_ntt};
use crate::rns::{basis_error, lift_value, project_value, valid_basis, RnsContext};
use crate::sampling::{
    cbd_row, cbd_seq, chacha8_fill_words, chacha8_words, fresh_seed, random_words, uniform_row,
    uniform_seq, zeroize_words,
};
use crate::views::view_of;
use crate::zq::{add_seq, is_reduced, mul_seq, neg_seq, scale_seq, shoup_seq, sub_seq, Modulus};
use num_bigint::BigUint;
use vstd::arithmetic::div_mod::*;
use vstd::prelude::*;

verus! {

/// The form in which a ring element is held.
#[derive(Debug, Clone, Copy, PartialEq, Eq, Structural)]
pub enum Representation {
    /// By its coefficients.
    PowerBasis,
    /// By its transform.
    Ntt,
    /// By its transform, with the Shoup companion of every entry.
    NttShoup,
}

/// The rows that a vector of vectors holds.
pub open spec fn rows_of(v: Vec<Vec<u64>>) -> Seq<Seq<u64>> {
    Seq::new(v@.len(), |i: int| v@[i]@)
}

/// One row of `degree` residues for each modulus.
pub open spec fn well_shaped(rows: Seq<Seq<u64>>, moduli: Seq<u64>, degree: nat) -> bool {
    rows.len() == moduli.len() && forall|i: int|
        0 <= i < rows.len() ==> (#[trigger] rows[i]).len() == degree && is_reduced(
            rows[i],
            moduli[i] as int,
        )
}

/// `k` rows of `n` zeros.
pub open spec fn zero_rows(k: nat, n: nat) -> Seq<Seq<u64>> {
    Seq::new(k, |i: int| Seq::new(n, |j: int| 0u64))
}

/// Row-wise sum.
pub open spec fn add_rows(a: Seq<Seq<u64>>, b: Seq<Seq<u64>>, moduli: Seq<u64>) -> Seq<Seq<u64>> {
    Seq::new(a.len(), |i: int| add_seq(a[i], b[i], moduli[i] as int))
}

/// Row-wise difference.
pub open spec fn sub_rows(a: Seq<Seq<u64>>, b: Seq<Seq<u64>>, moduli: Seq<u64>) -> Seq<Seq<u64>> {
    Seq::new(a.len(), |i: int| sub_seq(a[i], b[i], moduli[i] as int))
}

/// Row-wise opposite.
pub open spec fn neg_rows(a: Seq<Seq<u64>>, moduli: Seq<u64>) -> Seq<Seq<u64>> {
    Seq::new(a.len(), |i: int| neg_seq(a[i], moduli[i] as int))
}

/// Row-wise, entry-wise product.
pub open spec fn mul_rows(a: Seq<Seq<u64>>, b: Seq<Seq<u64>>, moduli: Seq<u64>) -> Seq<Seq<u64>> {
    Seq::new(a.len(), |i: int| mul_seq(a[i], b[i], moduli[i] as int))
}

/// Each row multiplied by the residue of its modulus in `s`.
pub open spec fn scale_rows(a: Seq<Seq<u64>>, s: Seq<u64>, moduli: Seq<u64>) -> Seq<Seq<u64>> {
    Seq::new(a.len(), |i: int| scale_seq(a[i], s[i] as int, moduli[i] as int))
}

/// The Shoup companions of every row.
pub open spec fn shoup_rows(a: Seq<Seq<u64>>, moduli: Seq<u64>) -> Seq<Seq<u64>> {
    Seq::new(a.len(), |i: int| shoup_seq(a[i], moduli[i] as int))
}

/// The forward transform of every row.
pub open spec fn forward_rows(a: Seq<Seq<u64>>, moduli: Seq<u64>, degree: nat) -> Seq<Seq<u64>> {
    Seq::new(a.len(), |i: int| forward_transform(a[i], moduli[i] as int, degree))
}

/// The backward transform of every row.
pub open spec fn backward_rows(a: Seq<Seq<u64>>, moduli: Seq<u64>, degree: nat) -> Seq<
    Seq<u64>,
> {
    Seq::new(a.len(), |i: int| backward_transform(a[i], moduli[i] as int, degree))
}

/// The rows of an element after a change of representation.
pub open spec fn converted_rows(
    a: Seq<Seq<u64>>,
    from: Representation,
    to: Representation,
    moduli: Seq<u64>,
    degree: nat,
) -> Seq<Seq<u64>> {
    if from == Representation::PowerBasis && to != Representation::PowerBasis {
        forward_rows(a, moduli, degree)
    } else if from != Representation::PowerBasis && to == Representation::PowerBasis {
        backward_rows(a, moduli, degree)
    } else {
        a
    }
}

/// The rows of the values, each reduced modulo each modulus, and zeros up
/// to the degree.
pub open spec fn value_rows(values: Seq<u64>, moduli: Seq<u64>, degree: nat) -> Seq<Seq<u64>> {
    Seq::new(
        moduli.len(),
        |i: int|
            Seq::new(
                degree,
                |j: int|
                    if j < values.len() {
                        (values[j] as int % moduli[i] as int) as u64
                    } else {
                        0u64
                    },
            ),
    )
}

/// The rows of the constant polynomial `x`.
pub open spec fn constant_rows(x: nat, moduli: Seq<u64>, degree: nat) -> Seq<Seq<u64>> {
    Seq::new(
        moduli.len(),
        |i: int|
            Seq::new(
                degree,
                |j: int|
                    if j == 0 {
                        (x % (moduli[i] as nat)) as u64
                    } else {
                        0u64
                    },
            ),
    )
}

/// The rows that `2 * degree` words for each modulus give, uniformly.
pub open spec fn uniform_rows(words: Seq<u64>, moduli: Seq<u64>, degree: nat) -> Seq<Seq<u64>> {
    Seq::new(
        moduli.len(),
        |i: int|
            uniform_seq(
                words.subrange(2 * degree * i, 2 * degree * (i + 1)),
                degree,
                moduli[i] as int,
            ),
    )
}

/// The rows that the generator seeded with `seed` gives.
pub open spec fn seeded_rows(seed: Seq<u8>, moduli: Seq<u64>, degree: nat) -> Seq<Seq<u64>> {
    uniform_rows(chacha8_words(seed, 2 * degree * moduli.len()), moduli, degree)
}

/// The rows of the centered binomial samples of `degree` words.
pub open spec fn small_rows(words: Seq<u64>, variance: nat, moduli: Seq<u64>, degree: nat) -> Seq<
    Seq<u64>,
> {
    Seq::new(moduli.len(), |i: int| cbd_seq(words, degree, variance, moduli[i] as int))
}

/// The rows of the centered binomial samples of `degree` words, brought
/// into the form `rep`.
pub open spec fn sampled_rows(
    words: Seq<u64>,
    variance: nat,
    rep: Representation,
    moduli: Seq<u64>,
    degree: nat,
) -> Seq<Seq<u64>> {
    converted_rows(
        small_rows(words, variance, moduli, degree),
        Representation::PowerBasis,
        rep,
        moduli,
        degree,
    )
}

/// The column `j` of the rows: the residues of coefficient `j`.
pub open spec fn column(rows: Seq<Seq<u64>>, j: int) -> Seq<u64> {
    Seq::new(rows.len(), |i: int| rows[i][j])
}

/// The moduli and the degree make a ring that the transform supports.
pub open spec fn valid_ring(moduli: Seq<u64>, degree: nat) -> bool {
    &&& degree >= 8
    &&& is_power_of_two(degree)
    &&& valid_basis(moduli)
    &&& forall|i: int|
        0 <= i < moduli.len() ==> supports_ntt(#[trigger] moduli[i] as int, degree)
            && primitive_root(moduli[i] as int, degree) is Some
    &&& 4 * degree * moduli.len() <= usize::MAX
}

/// The failure that moduli and a degree give that make no ring.
pub open spec fn ring_error(moduli: Seq<u64>, degree: nat) -> Error {
    if !(degree >= 8 && is_power_of_two(degree)) {
        Error::InvalidDegree
    } else if !valid_basis(moduli) {
        basis_error(moduli)
    } else {
        Error::NttUnsupported
    }
}

/// A ring: its moduli, its degree, and the transform for each modulus.
#[derive(Debug, Clone, PartialEq, Eq)]
pub struct Context {
    moduli: Vec<u64>,
    q: Vec<Modulus>,
    ops: Vec<NttOperator>,
    degree: usize,
    rns: RnsContext,
}

impl Context {
    /// The moduli of the ring.
    pub closed spec fn spec_moduli(&self) -> &Vec<u64> {
        &self.moduli
    }

    /// The degree of the ring.
    pub closed spec fn spec_degree(&self) -> usize {
        self.degree
    }

    /// The data are those of a valid ring.
    pub closed spec fn wf(&self) -> bool {
        &&& valid_ring(self.moduli@, self.degree as nat)
        &&& self.q.len() == self.moduli.len()
        &&& self.ops.len() == self.moduli.len()
        &&& forall|i: int|
            0 <= i < self.q.len() ==> (#[trigger] self.q@[i]).wf() && self.q@[i]@
                == self.moduli@[i]
        &&& forall|i: int|
            0 <= i < self.ops.len() ==> (#[trigger] self.ops@[i]).wf() && self.ops@[i].modulus()
                == self.moduli@[i] && self.ops@[i].size() == self.degree
        &&& self.rns.wf()
        &&& self.rns.moduli() == self.moduli@
    }

    /// A well-formed context is that of a valid ring.
    pub proof fn lemma_wf(&self)
        requires
            self.wf(),
        ensures
            valid_ring(self.moduli()@, self.degree() as nat),
            self.moduli().len() > 0,
    {
    }

    /// The ring of the moduli and the degree; fails where they make none.
    pub fn new(moduli: &Vec<u64>, degree: usize) -> (r: Result<Context, Error>)
        ensures
            r is Ok <==> valid_ring(moduli@, degree as nat),
            r matches Ok(ctx) ==> ctx.wf() && ctx.moduli()@ == moduli@ && ctx.degree() == degree,
            r matches Err(e) ==> e == ring_error(moduli@, degree as nat),
    {
        if degree < 8 || !check_power_of_two(degree) {
            return Err(Error::InvalidDegree);
        }
        let rns = match RnsContext::new(moduli) {
            Ok(x) => x,
            Err(e) => {
                return Err(e);
            },
        };
        let k = moduli.len();
        let mut q: Vec<Modulus> = Vec::with_capacity(k);
        let mut ops: Vec<NttOperator> = Vec::with_capacity(k);
        let mut i: usize = 0;
        while i < k
            invariant
                k == moduli.len(),
                degree >= 8,
                is_power_of_two(degree as nat),
                valid_basis(moduli@),
                i <= k,
                q.len() == i,
                ops.len() == i,
                forall|j: int| 0 <= j < i ==> (#[trigger] q@[j]).wf() && q@[j]@ == moduli@[j],
                forall|j: int|
                    0 <= j < i ==> (#[trigger] ops@[j]).wf() && ops@[j].modulus() == moduli@[j]
                        && ops@[j].size() == degree,
                forall|j: int|
                    0 <= j < i ==> supports_ntt(#[trigger] moduli@[j] as int, degree as nat)
                        && primitive_root(moduli@[j] as int, degree as nat) is Some,
            decreases k - i,
        {
            let m = match Modulus::new(moduli[i]) {
                Ok(m) => m,
                Err(_) => {
                    return Err(Error::NttUnsupported);
                },
            };
            match NttOperator::new(&m, degree) {
                Some(op) => {
                    ops.push(op);
                },
                None => {
                    return Err(Error::NttUnsupported);
                },
            }
            q.push(m);
            i += 1;
        }
        let fits = match degree.checked_mul(4) {
            Some(d) => d.checked_mul(k).is_some(),
            None => false,
        };
        if !fits {
            proof {
                assert(4 * degree * k > usize::MAX) by (nonlinear_arith)
                    requires
                        4 * degree > usize::MAX || (4 * degree) * k > usize::MAX,
                        k >= 1,
                ;
            }
            return Err(Error::NttUnsupported);
        }
        proof {
            assert(4 * degree * k == (4 * degree) * k) by (nonlinear_arith);
        }
        Ok(Context { moduli: moduli.clone(), q, ops, degree, rns })
    }

    /// The moduli of the ring.
    #[verifier::when_used_as_spec(spec_moduli)]
    pub fn moduli(&self) -> (r: &Vec<u64>)
        ensures
            r == self.spec_moduli(),
    {
        &self.moduli
    }

    /// The degree of the ring.
    #[verifier::when_used_as_spec(spec_degree)]
    pub fn degree(&self) -> (r: usize)
        ensures
            r == self.spec_degree(),
    {
        self.degree
    }

    /// The Chinese-remainder data of the moduli.
    pub fn rns(&self) -> (r: &RnsContext)
        requires
            self.wf(),
        ensures
            r.wf(),
            r.moduli() == self.moduli()@,
    {
        &self.rns
    }

    /// The modulus at `i`.
    pub fn modulus_at(&self, i: usize) -> (r: &Modulus)
        requires
            self.wf(),
            i < self.moduli().len(),
        ensures
            r.wf(),
            r@ == self.moduli()@[i as int],
    {
        &self.q[i]
    }
}

/// An element of a ring.
#[derive(Debug, Clone, PartialEq, Eq)]
pub struct Poly {
    rep: Representation,
    allow_vt: bool,
    rows: Vec<Vec<u64>>,
    shoup: Vec<Vec<u64>>,
}

impl Poly {
    /// The residues of the element: one row for each modulus.
    pub closed spec fn rows(&self) -> Seq<Seq<u64>> {
        rows_of(self.rows)
    }

    /// The Shoup companions of the residues, where they are held.
    pub closed spec fn companions(&self) -> Seq<Seq<u64>> {
        rows_of(self.shoup)
    }

    /// The form in which the element is held.
    pub closed spec fn spec_representation(&self) -> Representation {
        self.rep
    }

    /// Whether operations on the element may branch on its residues.
    pub closed spec fn spec_variable_time(&self) -> bool {
        self.allow_vt
    }

    /// The element belongs to the ring of the moduli and the degree, and
    /// holds the Shoup companions exactly in the form that asks for them.
    pub open spec fn wf(&self, moduli: Seq<u64>, degree: nat) -> bool {
        &&& well_shaped(self.rows(), moduli, degree)
        &&& self.representation() == Representation::NttShoup ==> self.companions() == shoup_rows(
            self.rows(),
            moduli,
        )
        &&& self.representation() != Representation::NttShoup ==> self.companions().len() == 0
    }

    /// The element belongs to the ring of the context.
    pub open spec fn fits(&self, ctx: &Context) -> bool {
        self.wf(ctx.moduli()@, ctx.degree() as nat)
    }

    /// What the shape of the rows says of each vector that holds one.
    proof fn lemma_rows(&self, moduli: Seq<u64>, degree: nat)
        requires
            well_shaped(self.rows(), moduli, degree),
        ensures
            self.rows@.len() == moduli.len(),
            forall|j: int|
                0 <= j < self.rows@.len() ==> (#[trigger] self.rows@[j])@.len() == degree
                    && is_reduced(self.rows@[j]@, moduli[j] as int),
    {
        assert forall|j: int| 0 <= j < self.rows@.len() implies (#[trigger] self.rows@[j])@.len()
            == degree && is_reduced(self.rows@[j]@, moduli[j] as int) by {
            assert(self.rows()[j] == self.rows@[j]@);
        }
    }

    /// The form in which the element is held.
    #[verifier::when_used_as_spec(spec_representation)]
    pub fn representation(&self) -> (r: Representation)
        ensures
            r == self.spec_representation(),
    {
        self.rep
    }

    /// Whether operations on the element may branch on its residues.
    #[verifier::when_used_as_spec(spec_variable_time)]
    pub fn variable_time(&self) -> (r: bool)
        ensures
            r == self.spec_variable_time(),
    {
        self.allow_vt
    }

    /// Lets operations on the element branch on its residues. Call it only
    /// once the element no longer depends on a secret.
    pub fn allow_variable_time_computations(&mut self)
        ensures
            final(self).rows() == old(self).rows(),
            final(self).companions() == old(self).companions(),
            final(self).representation() == old(self).representation(),
            final(self).variable_time(),
    {
        self.allow_vt = true;
    }

    /// Forbids operations on the element to branch on its residues.
    pub fn disallow_variable_time_computations(&mut self)
        ensures
            final(self).rows() == old(self).rows(),
            final(self).companions() == old(self).companions(),
            final(self).representation() == old(self).representation(),
            !final(self).variable_time(),
    {
        self.allow_vt = false;
    }

    /// The row of residues modulo the modulus at `i`.
    pub fn row(&self, i: usize) -> (r: &Vec<u64>)
        requires
            i < self.rows().len(),
        ensures
            r@ == self.rows()[i as int],
    {
        &self.rows[i]
    }

    /// A copy of the element.
    pub fn duplicate(&self) -> (r: Poly)
        ensures
            r.rows() == self.rows(),
            r.companions() == self.companions(),
            r.representation() == self.representation(),
            r.variable_time() == self.variable_time(),
    {
        let rows = self.to_rows();
        let k = self.shoup.len();
        let mut shoup: Vec<Vec<u64>> = Vec::with_capacity(k);
        let mut i: usize = 0;
        while i < k
            invariant
                k == self.shoup.len(),
                i <= k,
                shoup.len() == i,
                forall|j: int| 0 <= j < i ==> (#[trigger] shoup@[j])@ == self.shoup@[j]@,
            decreases k - i,
        {
            shoup.push(self.shoup[i].clone());
            i += 1;
        }
        assert(rows_of(shoup) =~= rows_of(self.shoup));
        Poly { rep: self.rep, allow_vt: self.allow_vt, rows, shoup }
    }

    /// The rows of residues, copied.
    pub fn to_rows(&self) -> (r: Vec<Vec<u64>>)
        ensures
            rows_of(r) == self.rows(),
    {
        let k = self.rows.len();
        let mut out: Vec<Vec<u64>> = Vec::with_capacity(k);
        let mut i: usize = 0;
        while i < k
            invariant
                k == self.rows.len(),
                i <= k,
                out.len() == i,
                forall|j: int| 0 <= j < i ==> (#[trigger] out@[j])@ == self.rows@[j]@,
            decreases k - i,
        {
            out.push(self.rows[i].clone());
            i += 1;
        }
        assert(rows_of(out) =~= rows_of(self.rows));
        out
    }

    /// The element with the given rows in the given form; fails where the
    /// rows do not have the shape of the ring.
    pub fn from_rows(rows: Vec<Vec<u64>>, rep: Representation, ctx: &Context) -> (r: Result<
        Poly,
        Error,
    >)
        requires
            ctx.wf(),
        ensures
            r is Ok <==> well_shaped(rows_of(rows), ctx.moduli()@, ctx.degree() as nat),
            r matches Ok(p) ==> p.fits(ctx) && p.rows() == rows_of(rows) && p.representation()
                == rep && !p.variable_time(),
            r matches Err(e) ==> e == Error::InvalidPolynomial,
    {
        let k = ctx.moduli.len();
        if rows.len() != k {
            return Err(Error::InvalidPolynomial);
        }
        let mut i: usize = 0;
        while i < k
            invariant
                ctx.wf(),
                k == ctx.moduli.len(),
                k == rows.len(),
                i <= k,
                forall|j: int|
                    0 <= j < i ==> (#[trigger] rows@[j])@.len() == ctx.degree && is_reduced(
                        rows@[j]@,
                        ctx.moduli@[j] as int,
                    ),
            decreases k - i,
        {
            if rows[i].len() != ctx.degree {
                proof {
                    assert(rows_of(rows)[i as int] == rows@[i as int]@);
                }
                return Err(Error::InvalidPolynomial);
            }
            let p = ctx.moduli[i];
            let mut j: usize = 0;
            while j < ctx.degree
                invariant
                    k == rows.len(),
                    k == ctx.moduli.len(),
                    i < k,
                    p == ctx.moduli@[i as int],
                    rows@[i as int]@.len() == ctx.degree,
                    j <= ctx.degree,
                    forall|l: int| 0 <= l < j ==> (#[trigger] rows@[i as int]@[l]) < p,
                decreases ctx.degree - j,
            {
                if rows[i][j] >= p {
                    proof {
                        assert(rows_of(rows)[i as int] == rows@[i as int]@);
                        assert(!(rows_of(rows)[i as int][j as int] < p));
                    }
                    return Err(Error::InvalidPolynomial);
                }
                j += 1;
            }
            i += 1;
        }
        proof {
            assert forall|j: int| 0 <= j < rows_of(rows).len() implies (#[trigger] rows_of(
                rows,
            )[j]).len() == ctx.degree && is_reduced(rows_of(rows)[j], ctx.moduli@[j] as int) by {
                assert(rows_of(rows)[j] == rows@[j]@);
            }
        }
        let mut p = Poly { rep: Representation::PowerBasis, allow_vt: false, rows, shoup: Vec::new() };
        proof {
            assert(p.companions() =~= Seq::<Seq<u64>>::empty());
        }
        p.set_form(rep, ctx);
        Ok(p)
    }

    /// Sets the form without touching the residues, and computes or drops
    /// the Shoup companions as the form asks.
    fn set_form(&mut self, rep: Representation, ctx: &Context)
        requires
            ctx.wf(),
            well_shaped(old(self).rows(), ctx.moduli()@, ctx.degree() as nat),
        ensures
            final(self).fits(ctx),
            final(self).rows() == old(self).rows(),
            final(self).representation() == rep,
            final(self).variable_time() == old(self).variable_time(),
    {
        self.rep = rep;
        let k = self.rows.len();
        let mut companions: Vec<Vec<u64>> = Vec::new();
        if rep == Representation::NttShoup {
            let mut i: usize = 0;
            while i < k
                invariant
                    ctx.wf(),
                    k == self.rows.len(),
                    well_shaped(self.rows(), ctx.moduli()@, ctx.degree() as nat),
                    i <= k,
                    companions.len() == i,
                    forall|j: int|
                        0 <= j < i ==> (#[trigger] companions@[j])@ == shoup_seq(
                            self.rows@[j]@,
                            ctx.moduli@[j] as int,
                        ),
                decreases k - i,
            {
                proof {
                    assert(rows_of(self.rows)[i as int] == self.rows@[i as int]@);
                }
                companions.push(ctx.q[i].shoup_vec(&self.rows[i]));
                i += 1;
            }
        }
        self.shoup = companions;
        proof {
            if rep == Representation::NttShoup {
                assert(self.companions() =~= shoup_rows(self.rows(), ctx.moduli()@));
            } else {
                assert(self.companions() =~= Seq::<Seq<u64>>::empty());
            }
        }
    }

    /// The zero element in the given form.
    pub fn zero(ctx: &Context, rep: Representation) -> (r: Poly)
        requires
            ctx.wf(),
        ensures
            r.fits(ctx),
            r.rows() == zero_rows(ctx.moduli()@.len(), ctx.degree() as nat),
            r.representation() == rep,
            !r.variable_time(),
    {
        let k = ctx.moduli.len();
        let mut rows: Vec<Vec<u64>> = Vec::with_capacity(k);
        let mut i: usize = 0;
        while i < k
            invariant
                k == ctx.moduli.len(),
                i <= k,
                rows.len() == i,
                forall|j: int|
                    0 <= j < i ==> (#[trigger] rows@[j])@ == Seq::new(
                        ctx.degree as nat,
                        |l: int| 0u64,
                    ),
            decreases k - i,
        {
            let mut row: Vec<u64> = Vec::with_capacity(ctx.degree);
            let mut j: usize = 0;
            while j < ctx.degree
                invariant
                    j <= ctx.degree,
                    row.len() == j,
                    forall|l: int| 0 <= l < j ==> row@[l] == 0,
                decreases ctx.degree - j,
            {
                row.push(0);
                j += 1;
            }
            assert(row@ =~= Seq::new(ctx.degree as nat, |l: int| 0u64));
            rows.push(row);
            i += 1;
        }
        let mut p = Poly { rep: Representation::PowerBasis, allow_vt: false, rows, shoup: Vec::new() };
        proof {
            assert(p.rows() =~= zero_rows(k as nat, ctx.degree as nat));
        }
        p.set_form(rep, ctx);
        p
    }

    /// The element whose coefficients are the values, reduced, in the given
    /// form; fails where there are more values than the degree.
    pub fn from_values(values: &Vec<u64>, ctx: &Context, rep: Representation) -> (r: Result<
        Poly,
        Error,
    >)
        requires
            ctx.wf(),
        ensures
            r is Ok <==> values.len() <= ctx.degree(),
            r matches Ok(p) ==> p.fits(ctx) && p.representation() == rep && !p.variable_time()
                && p.rows() == converted_rows(
                value_rows(values@, ctx.moduli()@, ctx.degree() as nat),
                Representation::PowerBasis,
                rep,
                ctx.moduli()@,
                ctx.degree() as nat,
            ),
            r matches Err(e) ==> e == Error::InvalidValues,
    {
        if values.len() > ctx.degree {
            return Err(Error::InvalidValues);
        }
        let k = ctx.moduli.len();
        let n = ctx.degree;
        let mut rows: Vec<Vec<u64>> = Vec::with_capacity(k);
        let ghost target = value_rows(values@, ctx.moduli@, n as nat);
        let mut i: usize = 0;
        while i < k
            invariant
                ctx.wf(),
                k == ctx.moduli.len(),
                n == ctx.degree,
                values.len() <= n,
                target == value_rows(values@, ctx.moduli@, n as nat),
                i <= k,
                rows.len() == i,
                forall|j: int| 0 <= j < i ==> (#[trigger] rows@[j])@ == target[j],
            decreases k - i,
        {
            let mut row: Vec<u64> = Vec::with_capacity(n);
            let mut j: usize = 0;
            while j < n
                invariant
                    ctx.wf(),
                    i < k,
                    k == ctx.moduli.len(),
                    n == ctx.degree,
                    values.len() <= n,
                    target == value_rows(values@, ctx.moduli@, n as nat),
                    j <= n,
                    row.len() == j,
                    forall|l: int| 0 <= l < j ==> row@[l] == target[i as int][l],
                decreases n - j,
            {
                if j < values.len() {
                    row.push(ctx.q[i].reduce(values[j]));
                } else {
                    row.push(0);
                }
                j += 1;
            }
            assert(row@ =~= target[i as int]);
            rows.push(row);
            i += 1;
        }
        let mut p = Poly { rep: Representation::PowerBasis, allow_vt: false, rows, shoup: Vec::new() };
        proof {
            assert(p.rows() =~= target);
            assert(p.companions() =~= Seq::<Seq<u64>>::empty());
            assert forall|i: int| 0 <= i < target.len() implies is_reduced(
                #[trigger] target[i],
                ctx.moduli@[i] as int,
            ) by {
                assert forall|j: int| 0 <= j < target[i].len() implies (#[trigger] target[i][j])
                    < ctx.moduli@[i] by {
                    if j < values.len() {
                        lemma_mod_bound(values@[j] as int, ctx.moduli@[i] as int);
                    }
                }
            }
        }
        p.change_representation(rep, ctx);
        Ok(p)
    }

    /// The constant element `x`, in coefficient form.
    pub fn constant(x: &BigUint, ctx: &Context) -> (r: Poly)
        requires
            ctx.wf(),
        ensures
            r.fits(ctx),
            r.representation() == Representation::PowerBasis,
            !r.variable_time(),
            r.rows() == constant_rows(big_value(*x), ctx.moduli()@, ctx.degree() as nat),
    {
        let rests = ctx.rns.project(x);
        let k = ctx.moduli.len();
        let n = ctx.degree;
        let mut rows: Vec<Vec<u64>> = Vec::with_capacity(k);
        let ghost target = constant_rows(big_value(*x), ctx.moduli@, n as nat);
        let mut i: usize = 0;
        while i < k
            invariant
                ctx.wf(),
                k == ctx.moduli.len(),
                n == ctx.degree,
                rests@ == project_value(ctx.moduli@, big_value(*x)),
                target == constant_rows(big_value(*x), ctx.moduli@, n as nat),
                i <= k,
                rows.len() == i,
                forall|j: int| 0 <= j < i ==> (#[trigger] rows@[j])@ == target[j],
            decreases k - i,
        {
            let mut row: Vec<u64> = Vec::with_capacity(n);
            let mut j: usize = 0;
            while j < n
                invariant
                    i < k,
                    k == ctx.moduli.len(),
                    k == rests.len(),
                    n == ctx.degree,
                    rests@ == project_value(ctx.moduli@, big_value(*x)),
                    target == constant_rows(big_value(*x), ctx.moduli@, n as nat),
                    j <= n,
                    row.len() == j,
                    forall|l: int| 0 <= l < j ==> row@[l] == target[i as int][l],
                decreases n - j,
            {
                if j == 0 {
                    row.push(rests[i]);
                } else {
                    row.push(0);
                }
                j += 1;
            }
            assert(row@ =~= target[i as int]);
            rows.push(row);
            i += 1;
        }
        let p = Poly { rep: Representation::PowerBasis, allow_vt: false, rows, shoup: Vec::new() };
        proof {
            assert(p.rows() =~= target);
            assert(p.companions() =~= Seq::<Seq<u64>>::empty());
            assert forall|i: int| 0 <= i < target.len() implies is_reduced(
                #[trigger] target[i],
                ctx.moduli@[i] as int,
            ) by {
                assert forall|j: int| 0 <= j < target[i].len() implies (#[trigger] target[i][j])
                    < ctx.moduli@[i] by {
                    lemma_mod_bound(big_value(*x) as int, ctx.moduli@[i] as int);
                }
            }
        }
        p
    }

    /// The element that the generator seeded with `seed` gives, its
    /// residues read in the given form.
    pub fn random_from_seed(ctx: &Context, rep: Representation, seed: &[u8; 32]) -> (r: Poly)
        requires
            ctx.wf(),
        ensures
            r.fits(ctx),
            r.representation() == rep,
            !r.variable_time(),
            r.rows() == seeded_rows(seed@, ctx.moduli()@, ctx.degree() as nat),
    {
        let k = ctx.moduli.len();
        let n = ctx.degree;
        proof {
            ctx.lemma_wf();
            assert(2 * n * k <= 4 * n * k) by (nonlinear_arith);
            assert(2 * n * k == (2 * n) * k) by (nonlinear_arith);
            assert(2 * n <= 2 * n * k) by (nonlinear_arith)
                requires
                    k >= 1,
            ;
        }
        let words = chacha8_fill_words(seed, 2 * n * k);
        let mut rows: Vec<Vec<u64>> = Vec::with_capacity(k);
        let ghost target = uniform_rows(words@, ctx.moduli@, n as nat);
        let mut i: usize = 0;
        while i < k
            invariant
                ctx.wf(),
                k == ctx.moduli.len(),
                n == ctx.degree,
                words.len() == 2 * n * k,
                target == uniform_rows(words@, ctx.moduli@, n as nat),
                i <= k,
                rows.len() == i,
                forall|j: int| 0 <= j < i ==> (#[trigger] rows@[j])@ == target[j],
                forall|j: int|
                    0 <= j < i ==> is_reduced((#[trigger] rows@[j])@, ctx.moduli@[j] as int),
            decreases k - i,
        {
            proof {
                assert(2 * n * (i + 1) <= 2 * n * k) by (nonlinear_arith)
                    requires
                        i + 1 <= k,
                ;
                assert(2 * n * i + 2 * n == 2 * n * (i + 1)) by (nonlinear_arith);
            }
            let row = uniform_row(&words, 2 * n * i, n, &ctx.q[i]);
            rows.push(row);
            i += 1;
        }
        let mut p = Poly { rep: Representation::PowerBasis, allow_vt: false, rows, shoup: Vec::new() };
        proof {
            assert(p.rows() =~= target);
        }
        p.set_form(rep, ctx);
        p
    }

    /// A uniformly random element: that of a fresh seed, whatever seed the
    /// generator of the thread gives.
    pub fn random(ctx: &Context, rep: Representation) -> (r: Poly)
        requires
            ctx.wf(),
        ensures
            r.fits(ctx),
            r.representation() == rep,
            !r.variable_time(),
            exists|seed: Seq<u8>|
                r.rows() == #[trigger] seeded_rows(seed, ctx.moduli()@, ctx.degree() as nat),
    {
        let seed = fresh_seed();
        Poly::random_from_seed(ctx, rep, &seed)
    }

    /// The element whose coefficients are the centered binomial samples of
    /// the words, in coefficient form; fails where the variance lies
    /// outside `[1, 16]`.
    pub fn small_from_words(words: &Vec<u64>, ctx: &Context, variance: usize) -> (r: Result<
        Poly,
        Error,
    >)
        requires
            ctx.wf(),
            words.len() == ctx.degree(),
        ensures
            r is Ok <==> 1 <= variance <= 16,
            r matches Ok(p) ==> p.fits(ctx) && p.representation() == Representation::PowerBasis
                && !p.variable_time() && p.rows() == small_rows(
                words@,
                variance as nat,
                ctx.moduli()@,
                ctx.degree() as nat,
            ),
            r matches Err(e) ==> e == Error::Variance,
    {
        if variance < 1 || variance > 16 {
            return Err(Error::Variance);
        }
        let k = ctx.moduli.len();
        let n = ctx.degree;
        let mut rows: Vec<Vec<u64>> = Vec::with_capacity(k);
        let ghost target = small_rows(words@, variance as nat, ctx.moduli@, n as nat);
        let mut i: usize = 0;
        while i < k
            invariant
                ctx.wf(),
                1 <= variance <= 16,
                k == ctx.moduli.len(),
                n == ctx.degree,
                words.len() == n,
                target == small_rows(words@, variance as nat, ctx.moduli@, n as nat),
                i <= k,
                rows.len() == i,
                forall|j: int| 0 <= j < i ==> (#[trigger] rows@[j])@ == target[j],
                forall|j: int|
                    0 <= j < i ==> is_reduced((#[trigger] rows@[j])@, ctx.moduli@[j] as int),
            decreases k - i,
        {
            let row = cbd_row(words, variance, &ctx.q[i]);
            rows.push(row);
            i += 1;
        }
        let p = Poly { rep: Representation::PowerBasis, allow_vt: false, rows, shoup: Vec::new() };
        proof {
            assert(p.rows() =~= target);
            assert(p.companions() =~= Seq::<Seq<u64>>::empty());
        }
        Ok(p)
    }

    /// An element with small random coefficients, in the given form:
    /// that of whatever words the generator of the thread gives.
    pub fn small(ctx: &Context, rep: Representation, variance: usize) -> (r: Result<Poly, Error>)
        requires
            ctx.wf(),
        ensures
            r is Ok <==> 1 <= variance <= 16,
            r matches Ok(p) ==> p.fits(ctx) && p.representation() == rep && !p.variable_time()
                && exists|words: Seq<u64>|
                words.len() == ctx.degree() && p.rows() == #[trigger] sampled_rows(
                    words,
                    variance as nat,
                    rep,
                    ctx.moduli()@,
                    ctx.degree() as nat,
                ),
            r matches Err(e) ==> e == Error::Variance,
    {
        let mut words = random_words(ctx.degree);
        let ghost drawn = words@;
        let made = Poly::small_from_words(&words, ctx, variance);
        zeroize_words(&mut words);
        match made {
            Ok(mut p) => {
                p.change_representation(rep, ctx);
                proof {
                    assert(p.rows() == sampled_rows(
                        drawn,
                        variance as nat,
                        rep,
                        ctx.moduli()@,
                        ctx.degree() as nat,
                    ));
                }
                Ok(p)
            },
            Err(e) => Err(e),
        }
    }

    /// Brings the element into the form `to`: by the forward transform from
    /// coefficient form, by the backward transform into it, and with the
    /// Shoup companions exactly in the form that asks for them.
    pub fn change_representation(&mut self, to: Representation, ctx: &Context)
        requires
            ctx.wf(),
            old(self).fits(ctx),
        ensures
            final(self).fits(ctx),
            final(self).representation() == to,
            final(self).variable_time() == old(self).variable_time(),
            final(self).rows() == converted_rows(
                old(self).rows(),
                old(self).representation(),
                to,
                ctx.moduli()@,
                ctx.degree() as nat,
            ),
    {
        let from = self.rep;
        let forward = from == Representation::PowerBasis && to != Representation::PowerBasis;
        let backward = from != Representation::PowerBasis && to == Representation::PowerBasis;
        if forward || backward {
            let k = self.rows.len();
            let ghost before = self.rows();
            proof {
                self.lemma_rows(ctx.moduli@, ctx.degree as nat);
            }
            let ghost target = if forward {
                forward_rows(before, ctx.moduli@, ctx.degree as nat)
            } else {
                backward_rows(before, ctx.moduli@, ctx.degree as nat)
            };
            let mut i: usize = 0;
            while i < k
                invariant
                    ctx.wf(),
                    k == self.rows.len(),
                    k == ctx.moduli.len(),
                    before.len() == k,
                    forward != backward,
                    target == if forward {
                        forward_rows(before, ctx.moduli@, ctx.degree as nat)
                    } else {
                        backward_rows(before, ctx.moduli@, ctx.degree as nat)
                    },
                    i <= k,
                    self.allow_vt == old(self).allow_vt,
                    forall|j: int| 0 <= j < i ==> (#[trigger] self.rows@[j])@ == target[j],
                    forall|j: int| i <= j < k ==> (#[trigger] self.rows@[j])@ == before[j],
                    forall|j: int|
                        0 <= j < k ==> (#[trigger] self.rows@[j])@.len() == ctx.degree
                            && is_reduced(self.rows@[j]@, ctx.moduli@[j] as int),
                decreases k - i,
            {
                proof {
                    let p = ctx.moduli@[i as int] as int;
                    let n = ctx.degree as nat;
                    let row = self.rows@[i as int]@;
                    assert(ctx.q@[i as int].wf());
                    if forward {
                        lemma_ntt_shape(row, twiddles(p, n), 1, p);
                    } else {
                        lemma_intt_shape(row, inv_twiddles(p, n), 1, p);
                    }
                }
                if forward {
                    ctx.ops[i].forward(&mut self.rows[i]);
                } else {
                    ctx.ops[i].backward(&mut self.rows[i]);
                }
                i += 1;
            }
            proof {
                assert(self.rows() =~= target);
            }
        }
        proof {
            assert forall|j: int| 0 <= j < self.rows().len() implies (#[trigger] self.rows()[j]).len()
                == ctx.degree && is_reduced(self.rows()[j], ctx.moduli@[j] as int) by {
                assert(self.rows()[j] == self.rows@[j]@);
            }
        }
        self.set_form(to, ctx);
    }

    /// Adds `rhs` to the element, residue by residue.
    pub fn add_assign(&mut self, rhs: &Poly, ctx: &Context)
        requires
            ctx.wf(),
            old(self).fits(ctx),
            rhs.fits(ctx),
            old(self).representation() == rhs.representation(),
            rhs.representation() != Representation::NttShoup,
        ensures
            final(self).fits(ctx),
            final(self).representation() == old(self).representation(),
            final(self).variable_time() == old(self).variable_time(),
            final(self).rows() == add_rows(old(self).rows(), rhs.rows(), ctx.moduli()@),
    {
        let k = self.rows.len();
        let ghost before = self.rows();
        proof {
            self.lemma_rows(ctx.moduli@, ctx.degree as nat);
        }
        let ghost target = add_rows(before, rhs.rows(), ctx.moduli@);
        let mut i: usize = 0;
        while i < k
            invariant
                ctx.wf(),
                rhs.fits(ctx),
                k == self.rows.len(),
                k == ctx.moduli.len(),
                before.len() == k,
                target == add_rows(before, rhs.rows(), ctx.moduli@),
                i <= k,
                self.allow_vt == old(self).allow_vt,
                self.rep == old(self).rep,
                self.shoup == old(self).shoup,
                forall|j: int| 0 <= j < i ==> (#[trigger] self.rows@[j])@ == target[j],
                forall|j: int| i <= j < k ==> (#[trigger] self.rows@[j])@ == before[j],
                forall|j: int|
                    0 <= j < k ==> (#[trigger] self.rows@[j])@.len() == ctx.degree && is_reduced(
                        self.rows@[j]@,
                        ctx.moduli@[j] as int,
                    ),
            decreases k - i,
        {
            proof {
                assert(rhs.rows()[i as int] == rhs.rows@[i as int]@);
            }
            if self.allow_vt {
                ctx.q[i].add_vec_vt(&mut self.rows[i], &rhs.rows[i]);
            } else {
                ctx.q[i].add_vec(&mut self.rows[i], &rhs.rows[i]);
            }
            i += 1;
        }
        proof {
            assert(self.rows() =~= target);
            assert forall|j: int| 0 <= j < self.rows().len() implies (#[trigger] self.rows()[j]).len()
                == ctx.degree && is_reduced(self.rows()[j], ctx.moduli@[j] as int) by {
                assert(self.rows()[j] == self.rows@[j]@);
            }
        }
    }

    /// Subtracts `rhs` from the element, residue by residue.
    pub fn sub_assign(&mut self, rhs: &Poly, ctx: &Context)
        requires
            ctx.wf(),
            old(self).fits(ctx),
            rhs.fits(ctx),
            old(self).representation() == rhs.representation(),
            rhs.representation() != Representation::NttShoup,
        ensures
            final(self).fits(ctx),
            final(self).representation() == old(self).representation(),
            final(self).variable_time() == old(self).variable_time(),
            final(self).rows() == sub_rows(old(self).rows(), rhs.rows(), ctx.moduli()@),
    {
        let k = self.rows.len();
        let ghost before = self.rows();
        proof {
            self.lemma_rows(ctx.moduli@, ctx.degree as nat);
        }
        let ghost target = sub_rows(before, rhs.rows(), ctx.moduli@);
        let mut i: usize = 0;
        while i < k
            invariant
                ctx.wf(),
                rhs.fits(ctx),
                k == self.rows.len(),
                k == ctx.moduli.len(),
                before.len() == k,
                target == sub_rows(before, rhs.rows(), ctx.moduli@),
                i <= k,
                self.allow_vt == old(self).allow_vt,
                self.rep == old(self).rep,
                self.shoup == old(self).shoup,
                forall|j: int| 0 <= j < i ==> (#[trigger] self.rows@[j])@ == target[j],
                forall|j: int| i <= j < k ==> (#[trigger] self.rows@[j])@ == before[j],
                forall|j: int|
                    0 <= j < k ==> (#[trigger] self.rows@[j])@.len() == ctx.degree && is_reduced(
                        self.rows@[j]@,
                        ctx.moduli@[j] as int,
                    ),
            decreases k - i,
        {
            proof {
                assert(rhs.rows()[i as int] == rhs.rows@[i as int]@);
            }
            if self.allow_vt {
                ctx.q[i].sub_vec_vt(&mut self.rows[i], &rhs.rows[i]);
            } else {
                ctx.q[i].sub_vec(&mut self.rows[i], &rhs.rows[i]);
            }
            i += 1;
        }
        proof {
            assert(self.rows() =~= target);
            assert forall|j: int| 0 <= j < self.rows().len() implies (#[trigger] self.rows()[j]).len()
                == ctx.degree && is_reduced(self.rows()[j], ctx.moduli@[j] as int) by {
                assert(self.rows()[j] == self.rows@[j]@);
            }
        }
    }

    /// Replaces the element by its opposite.
    pub fn neg_assign(&mut self, ctx: &Context)
        requires
            ctx.wf(),
            old(self).fits(ctx),
            old(self).representation() != Representation::NttShoup,
        ensures
            final(self).fits(ctx),
            final(self).representation() == old(self).representation(),
            final(self).variable_time() == old(self).variable_time(),
            final(self).rows() == neg_rows(old(self).rows(), ctx.moduli()@),
    {
        let k = self.rows.len();
        let ghost before = self.rows();
        proof {
            self.lemma_rows(ctx.moduli@, ctx.degree as nat);
        }
        let ghost target = neg_rows(before, ctx.moduli@);
        let mut i: usize = 0;
        while i < k
            invariant
                ctx.wf(),
                k == self.rows.len(),
                k == ctx.moduli.len(),
                before.len() == k,
                target == neg_rows(before, ctx.moduli@),
                i <= k,
                self.allow_vt == old(self).allow_vt,
                self.rep == old(self).rep,
                self.shoup == old(self).shoup,
                forall|j: int| 0 <= j < i ==> (#[trigger] self.rows@[j])@ == target[j],
                forall|j: int| i <= j < k ==> (#[trigger] self.rows@[j])@ == before[j],
                forall|j: int|
                    0 <= j < k ==> (#[trigger] self.rows@[j])@.len() == ctx.degree && is_reduced(
                        self.rows@[j]@,
                        ctx.moduli@[j] as int,
                    ),
            decreases k - i,
        {
            if self.allow_vt {
                ctx.q[i].neg_vec_vt(&mut self.rows[i]);
            } else {
                ctx.q[i].neg_vec(&mut self.rows[i]);
            }
            i += 1;
        }
        proof {
            assert(self.rows() =~= target);
            assert forall|j: int| 0 <= j < self.rows().len() implies (#[trigger] self.rows()[j]).len()
                == ctx.degree && is_reduced(self.rows()[j], ctx.moduli@[j] as int) by {
                assert(self.rows()[j] == self.rows@[j]@);
            }
        }
    }

    /// Multiplies the element by `rhs`, entry by entry of the transforms:
    /// the product in the ring. Where `rhs` holds its Shoup companions, no
    /// division is made.
    pub fn mul_assign(&mut self, rhs: &Poly, ctx: &Context)
        requires
            ctx.wf(),
            old(self).fits(ctx),
            rhs.fits(ctx),
            old(self).representation() == Representation::Ntt,
            rhs.representation() != Representation::PowerBasis,
        ensures
            final(self).fits(ctx),
            final(self).representation() == Representation::Ntt,
            final(self).variable_time() == old(self).variable_time(),
            final(self).rows() == mul_rows(old(self).rows(), rhs.rows(), ctx.moduli()@),
    {
        let k = self.rows.len();
        let ghost before = self.rows();
        proof {
            self.lemma_rows(ctx.moduli@, ctx.degree as nat);
        }
        let ghost target = mul_rows(before, rhs.rows(), ctx.moduli@);
        let mut i: usize = 0;
        while i < k
            invariant
                ctx.wf(),
                rhs.fits(ctx),
                rhs.rep != Representation::PowerBasis,
                k == self.rows.len(),
                k == ctx.moduli.len(),
                before.len() == k,
                target == mul_rows(before, rhs.rows(), ctx.moduli@),
                i <= k,
                self.allow_vt == old(self).allow_vt,
                self.rep == old(self).rep,
                self.shoup == old(self).shoup,
                forall|j: int| 0 <= j < i ==> (#[trigger] self.rows@[j])@ == target[j],
                forall|j: int| i <= j < k ==> (#[trigger] self.rows@[j])@ == before[j],
                forall|j: int|
                    0 <= j < k ==> (#[trigger] self.rows@[j])@.len() == ctx.degree && is_reduced(
                        self.rows@[j]@,
                        ctx.moduli@[j] as int,
                    ),
            decreases k - i,
        {
            proof {
                assert(rhs.rows()[i as int] == rhs.rows@[i as int]@);
            }
            if rhs.rep == Representation::NttShoup {
                proof {
                    assert(rhs.companions().len() == rhs.shoup@.len());
                    assert(rhs.companions()[i as int] == rhs.shoup@[i as int]@);
                    assert(rhs.companions()[i as int] == shoup_seq(
                        rhs.rows()[i as int],
                        ctx.moduli@[i as int] as int,
                    ));
                }
                ctx.q[i].mul_shoup_vec(&mut self.rows[i], &rhs.rows[i], &rhs.shoup[i]);
            } else {
                ctx.q[i].mul_vec(&mut self.rows[i], &rhs.rows[i]);
            }
            i += 1;
        }
        proof {
            assert(self.rows() =~= target);
            assert forall|j: int| 0 <= j < self.rows().len() implies (#[trigger] self.rows()[j]).len()
                == ctx.degree && is_reduced(self.rows()[j], ctx.moduli@[j] as int) by {
                assert(self.rows()[j] == self.rows@[j]@);
            }
        }
    }

    /// Multiplies the row of each modulus by the residue of that modulus
    /// in `s`: the product by the number that has those residues.
    pub fn scale_assign(&mut self, s: &Vec<u64>, ctx: &Context)
        requires
            ctx.wf(),
            old(self).fits(ctx),
            old(self).representation() != Representation::NttShoup,
            s.len() == ctx.moduli()@.len(),
            forall|i: int| 0 <= i < s.len() ==> (#[trigger] s@[i]) < ctx.moduli()@[i],
        ensures
            final(self).fits(ctx),
            final(self).representation() == old(self).representation(),
            final(self).variable_time() == old(self).variable_time(),
            final(self).rows() == scale_rows(old(self).rows(), s@, ctx.moduli()@),
    {
        let k = self.rows.len();
        let ghost before = self.rows();
        proof {
            self.lemma_rows(ctx.moduli@, ctx.degree as nat);
        }
        let ghost target = scale_rows(before, s@, ctx.moduli@);
        let mut i: usize = 0;
        while i < k
            invariant
                ctx.wf(),
                k == self.rows.len(),
                k == ctx.moduli.len(),
                k == s.len(),
                forall|i: int| 0 <= i < s.len() ==> (#[trigger] s@[i]) < ctx.moduli@[i],
                before.len() == k,
                target == scale_rows(before, s@, ctx.moduli@),
                i <= k,
                self.allow_vt == old(self).allow_vt,
                self.rep == old(self).rep,
                self.shoup == old(self).shoup,
                forall|j: int| 0 <= j < i ==> (#[trigger] self.rows@[j])@ == target[j],
                forall|j: int| i <= j < k ==> (#[trigger] self.rows@[j])@ == before[j],
                forall|j: int|
                    0 <= j < k ==> (#[trigger] self.rows@[j])@.len() == ctx.degree && is_reduced(
                        self.rows@[j]@,
                        ctx.moduli@[j] as int,
                    ),
            decreases k - i,
        {
            ctx.q[i].scalar_mul_vec(&mut self.rows[i], s[i]);
            i += 1;
        }
        proof {
            assert(self.rows() =~= target);
            assert forall|j: int| 0 <= j < self.rows().len() implies (#[trigger] self.rows()[j]).len()
                == ctx.degree && is_reduced(self.rows()[j], ctx.moduli@[j] as int) by {
                assert(self.rows()[j] == self.rows@[j]@);
            }
        }
    }

    /// The number below the product of the moduli that coefficient `j`
    /// stands for.
    pub fn lift_coefficient(&self, j: usize, ctx: &Context) -> (r: BigUint)
        requires
            ctx.wf(),
            self.fits(ctx),
            j < ctx.degree(),
        ensures
            big_value(r) == lift_value(ctx.moduli()@, column(self.rows(), j as int)),
    {
        let k = self.rows.len();
        let mut rests: Vec<u64> = Vec::with_capacity(k);
        let mut i: usize = 0;
        while i < k
            invariant
                ctx.wf(),
                self.fits(ctx),
                j < ctx.degree,
                k == self.rows.len(),
                i <= k,
                rests.len() == i,
                forall|l: int| 0 <= l < i ==> rests@[l] == column(self.rows(), j as int)[l],
            decreases k - i,
        {
            proof {
                assert(self.rows()[i as int] == self.rows@[i as int]@);
            }
            rests.push(self.rows[i][j]);
            i += 1;
        }
        proof {
            assert(rests@ =~= column(self.rows(), j as int));
        }
        ctx.rns.lift(&view_of(&rests))
    }

    /// Overwrites every residue, and every Shoup companion, with zero.
    pub fn zeroize(&mut self)
        ensures
            final(self).representation() == old(self).representation(),
            final(self).variable_time() == old(self).variable_time(),
            final(self).rows().len() == old(self).rows().len(),
            final(self).companions().len() == old(self).companions().len(),
            forall|i: int|
                0 <= i < old(self).rows().len() ==> #[trigger] final(self).rows()[i] == Seq::new(
                    old(self).rows()[i].len(),
                    |j: int| 0u64,
                ),
            forall|i: int|
                0 <= i < old(self).companions().len() ==> #[trigger] final(self).companions()[i]
                    == Seq::new(old(self).companions()[i].len(), |j: int| 0u64),
    {
        let k = self.rows.len();
        let mut i: usize = 0;
        while i < k
            invariant
                k == self.rows.len(),
                k == old(self).rows.len(),
                i <= k,
                self.allow_vt == old(self).allow_vt,
                self.rep == old(self).rep,
                self.shoup == old(self).shoup,
                forall|j: int|
                    0 <= j < i ==> (#[trigger] self.rows@[j])@ == Seq::new(
                        old(self).rows@[j]@.len(),
                        |l: int| 0u64,
                    ),
                forall|j: int| i <= j < k ==> (#[trigger] self.rows@[j])@ == old(self).rows@[j]@,
            decreases k - i,
        {
            zeroize_words(&mut self.rows[i]);
            i += 1;
        }
        let ks = self.shoup.len();
        let mut i: usize = 0;
        while i < ks
            invariant
                ks == self.shoup.len(),
                ks == old(self).shoup.len(),
                i <= ks,
                self.allow_vt == old(self).allow_vt,
                self.rep == old(self).rep,
                self.rows.len() == old(self).rows.len(),
                forall|j: int|
                    0 <= j < self.rows.len() ==> (#[trigger] self.rows@[j])@ == Seq::new(
                        old(self).rows@[j]@.len(),
                        |l: int| 0u64,
                    ),
                forall|j: int|
                    0 <= j < i ==> (#[trigger] self.shoup@[j])@ == Seq::new(
                        old(self).shoup@[j]@.len(),
                        |l: int| 0u64,
                    ),
                forall|j: int| i <= j < ks ==> (#[trigger] self.shoup@[j])@ == old(self).shoup@[j]@,
            decreases ks - i,
        {
            zeroize_words(&mut self.shoup[i]);
            i += 1;
        }
        proof {
            assert forall|i: int| 0 <= i < old(self).rows().len() implies #[trigger] self.rows()[i]
                == Seq::new(old(self).rows()[i].len(), |j: int| 0u64) by {
                assert(self.rows()[i] == self.rows@[i]@);
                assert(old(self).rows()[i] == old(self).rows@[i]@);
            }
            assert forall|i: int|
                0 <= i < old(self).companions().len() implies #[trigger] self.companions()[i]
                == Seq::new(old(self).companions()[i].len(), |j: int| 0u64) by {
                assert(self.companions()[i] == self.shoup@[i]@);
                assert(old(self).companions()[i] == old(self).shoup@[i]@);
            }
        }
    }
}

} // verus!

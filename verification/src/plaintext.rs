//! Plaintexts: vectors of integers modulo the plaintext modulus, held by
//! the coefficients of a polynomial, either directly or slot by slot.

use crate::errors::Error;
use crate::ntt::{backward_transform, forward_transform};
use crate::parameters::BfvParameters;
use crate::rq::{converted_rows, mul_rows, value_rows, Poly, Representation};
use crate::zq::{is_reduced, scale_seq};
use std::rc::Rc;
use vstd::arithmetic::div_mod::*;
use vstd::prelude::*;

verus! {

/// How a vector of integers is held by a polynomial.
#[derive(Debug, Clone, Copy, PartialEq, Eq, Structural)]
pub enum Encoding {
    /// Each integer is a coefficient; the product is the negacyclic
    /// convolution.
    Poly,
    /// Each integer is a slot; the product is slot by slot.
    Simd,
}

/// The values reduced modulo `t`, and zeros up to `n`.
pub open spec fn padded_values(values: Seq<u64>, t: int, n: nat) -> Seq<u64> {
    Seq::new(
        n,
        |j: int|
            if j < values.len() {
                (values[j] as int % t) as u64
            } else {
                0u64
            },
    )
}

/// The first `k` values, reduced, each placed at the index that the map
/// gives it, over `base`.
pub open spec fn scattered(base: Seq<u64>, values: Seq<u64>, map: Seq<usize>, t: int, k: nat) -> Seq<
    u64,
>
    decreases k,
{
    if k == 0 {
        base
    } else {
        scattered(base, values, map, t, (k - 1) as nat).update(
            map[k - 1] as int,
            (values[k - 1] as int % t) as u64,
        )
    }
}

/// The entries of `w` gathered in the order of the map.
pub open spec fn gathered(w: Seq<u64>, map: Seq<usize>) -> Seq<u64> {
    Seq::new(map.len(), |i: int| w[map[i] as int])
}

/// The coefficients that hold the values in the encoding.
pub open spec fn encoded_values(
    values: Seq<u64>,
    encoding: Encoding,
    map: Seq<usize>,
    t: int,
    n: nat,
) -> Seq<u64> {
    match encoding {
        Encoding::Poly => padded_values(values, t, n),
        Encoding::Simd => backward_transform(
            scattered(Seq::new(n, |j: int| 0u64), values, map, t, values.len()),
            t,
            n,
        ),
    }
}

/// The values that the coefficients hold in the encoding.
pub open spec fn decoded_values(
    coefficients: Seq<u64>,
    encoding: Encoding,
    map: Seq<usize>,
    t: int,
    n: nat,
) -> Seq<u64> {
    match encoding {
        Encoding::Poly => coefficients,
        Encoding::Simd => gathered(forward_transform(coefficients, t, n), map),
    }
}

/// The rows of the transform of the polynomial with the coefficients.
pub open spec fn plain_rows(coefficients: Seq<u64>, moduli: Seq<u64>, n: nat) -> Seq<Seq<u64>> {
    converted_rows(
        value_rows(coefficients, moduli, n),
        Representation::PowerBasis,
        Representation::Ntt,
        moduli,
        n,
    )
}

/// The rows of the polynomial that stands for the coefficients in a
/// ciphertext: the coefficients times `Q mod t`, transformed, times the
/// scaling polynomial.
pub open spec fn scaled_plain_rows(
    coefficients: Seq<u64>,
    q_mod_t: int,
    t: int,
    delta: Seq<Seq<u64>>,
    moduli: Seq<u64>,
    n: nat,
) -> Seq<Seq<u64>> {
    mul_rows(plain_rows(scale_seq(coefficients, q_mod_t, t), moduli, n), delta, moduli)
}

/// Scattering keeps the length and gives residues.
pub proof fn lemma_scattered_shape(
    base: Seq<u64>,
    values: Seq<u64>,
    map: Seq<usize>,
    t: int,
    k: nat,
)
    requires
        t > 0,
        is_reduced(base, t),
        k <= values.len(),
        k <= map.len(),
        forall|i: int| 0 <= i < k ==> (#[trigger] map[i]) < base.len(),
    ensures
        scattered(base, values, map, t, k).len() == base.len(),
        is_reduced(scattered(base, values, map, t, k), t),
    decreases k,
{
    if k > 0 {
        lemma_scattered_shape(base, values, map, t, (k - 1) as nat);
        lemma_mod_bound(values[k - 1] as int, t);
    }
}

/// A plaintext.
#[derive(Debug, Clone, PartialEq, Eq)]
pub struct Plaintext {
    par: Rc<BfvParameters>,
    value: Vec<u64>,
    encoding: Option<Encoding>,
    poly_ntt: Poly,
    level: usize,
}

impl Plaintext {
    /// The parameters of the plaintext.
    pub closed spec fn parameters(&self) -> &BfvParameters {
        &*self.par
    }

    /// The coefficients of the plaintext.
    pub closed spec fn coefficients(&self) -> Seq<u64> {
        self.value@
    }

    /// The encoding that made the plaintext, where one did.
    pub closed spec fn spec_encoding(&self) -> Option<Encoding> {
        self.encoding
    }

    /// The transform of the polynomial of the coefficients.
    pub closed spec fn spec_poly_ntt(&self) -> &Poly {
        &self.poly_ntt
    }

    /// The level of the plaintext.
    pub closed spec fn spec_level(&self) -> usize {
        self.level
    }

    /// The coefficients are as many as the degree and reduced, and the
    /// transform is theirs.
    pub open spec fn wf(&self) -> bool {
        let par = self.parameters();
        &&& par.wf()
        &&& self.coefficients().len() == par.degree()
        &&& is_reduced(self.coefficients(), par.plaintext_modulus() as int)
        &&& self.poly_ntt().fits(par.context())
        &&& self.poly_ntt().representation() == Representation::Ntt
        &&& self.poly_ntt().rows() == plain_rows(
            self.coefficients(),
            par.moduli()@,
            par.degree() as nat,
        )
    }

    /// The parameters of the plaintext.
    pub fn par(&self) -> (r: &Rc<BfvParameters>)
        ensures
            **r == *self.parameters(),
    {
        &self.par
    }

    /// The coefficients of the plaintext.
    pub fn value(&self) -> (r: &Vec<u64>)
        ensures
            r@ == self.coefficients(),
    {
        &self.value
    }

    /// The encoding that made the plaintext, where one did.
    #[verifier::when_used_as_spec(spec_encoding)]
    pub fn encoding(&self) -> (r: Option<Encoding>)
        ensures
            r == self.spec_encoding(),
    {
        self.encoding
    }

    /// The transform of the polynomial of the coefficients.
    #[verifier::when_used_as_spec(spec_poly_ntt)]
    pub fn poly_ntt(&self) -> (r: &Poly)
        ensures
            r == self.spec_poly_ntt(),
    {
        &self.poly_ntt
    }

    /// The level of the plaintext.
    #[verifier::when_used_as_spec(spec_level)]
    pub fn level(&self) -> (r: usize)
        ensures
            r == self.spec_level(),
    {
        self.level
    }

    /// The plaintext with the given coefficients.
    pub fn from_coefficients(
        value: Vec<u64>,
        encoding: Option<Encoding>,
        par: &Rc<BfvParameters>,
    ) -> (r: Plaintext)
        requires
            par.wf(),
            value.len() == par.degree(),
            is_reduced(value@, par.plaintext_modulus() as int),
        ensures
            r.wf(),
            *r.parameters() == **par,
            r.coefficients() == value@,
            r.encoding() == encoding,
            r.level() == 0,
    {
        let made = Poly::from_values(&value, par.ctx(), Representation::Ntt);
        let poly_ntt = match made {
            Ok(p) => p,
            Err(_) => Poly::zero(par.ctx(), Representation::Ntt),
        };
        Plaintext { par: par.clone(), value, encoding, poly_ntt, level: 0 }
    }

    /// The plaintext that holds the values in the encoding; fails where
    /// there are more values than the degree, or where the batched encoding
    /// is asked of a plaintext modulus that has no transform.
    pub fn try_encode(values: &Vec<u64>, encoding: Encoding, par: &Rc<BfvParameters>) -> (r: Result<
        Plaintext,
        Error,
    >)
        requires
            par.wf(),
        ensures
            r is Ok <==> values.len() <= par.degree() && (encoding == Encoding::Simd
                ==> par.spec_op() is Some),
            r matches Ok(p) ==> p.wf() && *p.parameters() == **par && p.encoding() == Some(
                encoding,
            ) && p.level() == 0 && p.coefficients() == encoded_values(
                values@,
                encoding,
                par.index_map()@,
                par.plaintext_modulus() as int,
                par.degree() as nat,
            ),
            r matches Err(e) ==> e == if values.len() > par.degree() {
                Error::InvalidValues
            } else {
                Error::EncodingUnsupported
            },
    {
        let n = par.degree();
        if values.len() > n {
            return Err(Error::InvalidValues);
        }
        let t = par.plaintext();
        let ghost ti = par.plaintext_modulus() as int;
        match encoding {
            Encoding::Poly => {
                let mut v: Vec<u64> = Vec::with_capacity(n);
                let mut j: usize = 0;
                while j < n
                    invariant
                        par.wf(),
                        t == par.plaintext(),
                        ti == par.plaintext_modulus() as int,
                        n == par.degree(),
                        values.len() <= n,
                        j <= n,
                        v.len() == j,
                        forall|l: int| 0 <= l < j ==> v@[l] == padded_values(values@, ti, n as nat)[l],
                        forall|l: int| 0 <= l < j ==> (#[trigger] v@[l]) < ti,
                    decreases n - j,
                {
                    if j < values.len() {
                        v.push(t.reduce(values[j]));
                    } else {
                        v.push(0);
                    }
                    j += 1;
                }
                assert(v@ =~= padded_values(values@, ti, n as nat));
                Ok(Plaintext::from_coefficients(v, Some(encoding), par))
            },
            Encoding::Simd => {
                let op = match par.op() {
                    Some(op) => op,
                    None => {
                        return Err(Error::EncodingUnsupported);
                    },
                };
                let map = par.index_map();
                let mut w: Vec<u64> = Vec::with_capacity(n);
                let mut j: usize = 0;
                while j < n
                    invariant
                        j <= n,
                        w.len() == j,
                        forall|l: int| 0 <= l < j ==> w@[l] == 0,
                    decreases n - j,
                {
                    w.push(0);
                    j += 1;
                }
                let ghost base = Seq::new(n as nat, |j: int| 0u64);
                assert(w@ =~= base);
                let mut i: usize = 0;
                while i < values.len()
                    invariant
                        par.wf(),
                        t == par.plaintext(),
                        ti == par.plaintext_modulus() as int,
                        map == par.index_map(),
                        n == par.degree(),
                        values.len() <= n,
                        i <= values.len(),
                        w.len() == n,
                        is_reduced(base, ti),
                        base.len() == n,
                        w@ == scattered(base, values@, map@, ti, i as nat),
                    decreases values.len() - i,
                {
                    proof {
                        lemma_scattered_shape(base, values@, map@, ti, i as nat);
                    }
                    w.set(map[i], t.reduce(values[i]));
                    i += 1;
                }
                proof {
                    lemma_scattered_shape(base, values@, map@, ti, values.len() as nat);
                }
                op.backward(&mut w);
                Ok(Plaintext::from_coefficients(w, Some(encoding), par))
            },
        }
    }

    /// The plaintext that holds only zeros.
    pub fn zero(encoding: Encoding, par: &Rc<BfvParameters>) -> (r: Result<Plaintext, Error>)
        requires
            par.wf(),
        ensures
            r is Ok <==> (encoding == Encoding::Simd ==> par.spec_op() is Some),
            r matches Ok(p) ==> p.wf() && *p.parameters() == **par && p.encoding() == Some(
                encoding,
            ) && p.level() == 0 && p.coefficients() == encoded_values(
                Seq::<u64>::empty(),
                encoding,
                par.index_map()@,
                par.plaintext_modulus() as int,
                par.degree() as nat,
            ),
            r matches Err(e) ==> e == Error::EncodingUnsupported,
    {
        let values: Vec<u64> = Vec::new();
        Plaintext::try_encode(&values, encoding, par)
    }

    /// The values that the plaintext holds in the encoding; fails where the
    /// plaintext was made in another encoding, or where the batched
    /// encoding is asked of a plaintext modulus that has no transform.
    pub fn try_decode(&self, encoding: Encoding) -> (r: Result<Vec<u64>, Error>)
        requires
            self.wf(),
        ensures
            r is Ok <==> (self.encoding() is None || self.encoding() == Some(encoding))
                && (encoding == Encoding::Simd ==> self.parameters().spec_op() is Some),
            r matches Ok(v) ==> v@ == decoded_values(
                self.coefficients(),
                encoding,
                self.parameters().index_map()@,
                self.parameters().plaintext_modulus() as int,
                self.parameters().degree() as nat,
            ),
            r matches Err(e) ==> e == if !(self.encoding() is None || self.encoding() == Some(
                encoding,
            )) {
                Error::EncodingMismatch
            } else {
                Error::EncodingUnsupported
            },
    {
        match self.encoding {
            Some(e) => {
                if e != encoding {
                    return Err(Error::EncodingMismatch);
                }
            },
            None => {},
        }
        match encoding {
            Encoding::Poly => Ok(self.value.clone()),
            Encoding::Simd => {
                let op = match self.par.op() {
                    Some(op) => op,
                    None => {
                        return Err(Error::EncodingUnsupported);
                    },
                };
                let map = self.par.index_map();
                let mut w = self.value.clone();
                op.forward(&mut w);
                let n = self.par.degree();
                let mut out: Vec<u64> = Vec::with_capacity(n);
                let mut i: usize = 0;
                while i < n
                    invariant
                        self.wf(),
                        map == self.par.index_map(),
                        n == self.par.degree(),
                        w.len() == n,
                        map.len() == n,
                        i <= n,
                        out.len() == i,
                        forall|l: int| 0 <= l < i ==> out@[l] == gathered(w@, map@)[l],
                    decreases n - i,
                {
                    out.push(w[map[i]]);
                    i += 1;
                }
                assert(out@ =~= gathered(w@, map@));
                Ok(out)
            },
        }
    }

    /// The polynomial that stands for the plaintext in a ciphertext, in
    /// transformed form.
    pub fn to_poly(&self) -> (r: Poly)
        requires
            self.wf(),
        ensures
            r.fits(self.parameters().context()),
            r.representation() == Representation::Ntt,
            !r.variable_time(),
            r.rows() == scaled_plain_rows(
                self.coefficients(),
                self.parameters().q_mod_t() as int,
                self.parameters().plaintext_modulus() as int,
                self.parameters().delta().rows(),
                self.parameters().moduli()@,
                self.parameters().degree() as nat,
            ),
    {
        let par = &self.par;
        let mut w = self.value.clone();
        par.plaintext().scalar_mul_vec(&mut w, par.q_mod_t());
        let made = Poly::from_values(&w, par.ctx(), Representation::Ntt);
        crate::sampling::zeroize_words(&mut w);
        let mut m = match made {
            Ok(p) => p,
            Err(_) => Poly::zero(par.ctx(), Representation::Ntt),
        };
        m.mul_assign(par.delta(), par.ctx());
        m
    }
}

} // verus!

//! The parameters of the scheme, and everything that is derived from them
//! once and for all.

use crate::bigint::{big_from_word, big_rem, big_to_word};
use crate::errors::Error;
use crate::moduli::{
    compute_delta_rests, delta_exists, delta_rests, extend_basis, extended_basis,
    generate_moduli, generated_moduli, moduli_sizes_of, sizes_of, sum_sizes, total_size,
};
use crate::ntt::{primitive_root, NttOperator};
use crate::primes::{check_power_of_two, is_power_of_two, supports_ntt};
use crate::rns::{
    basis_error, lemma_product_at_least_two, lift_value, product_of, valid_basis, RnsContext,
    ScalingFactor,
};
use crate::rq::{
    constant_rows, forward_rows, ring_error, valid_ring, Context, Poly, Representation,
};
use crate::scaler::Scaler;
use crate::slot_order::lemma_index_map_injective;
use crate::slots::{index_map, injective, matrix_reps_index_map};
use crate::views::view_of;
use crate::zq::Modulus;
use std::rc::Rc;
use vstd::arithmetic::div_mod::*;
use vstd::prelude::*;

verus! {

/// The number of extra moduli of the first multiplication: enough for a
/// basis some 60 binary digits larger than the ciphertext modulus.
pub open spec fn extra_count(moduli: Seq<u64>) -> nat {
    ((total_size(sizes_of(moduli)) + 121) / 62) as nat
}

/// The rows of the plaintext scaling polynomial: the constant `-1/t`
/// modulo the ciphertext modulus, transformed.
pub open spec fn delta_rows(t: u64, moduli: Seq<u64>, degree: nat) -> Seq<Seq<u64>> {
    forward_rows(
        constant_rows(lift_value(moduli, delta_rests(t as int, moduli)), moduli, degree),
        moduli,
        degree,
    )
}

/// The batched encoding is available: the plaintext modulus has a
/// transform of the degree, and no two slots have the same coefficient
/// index.
pub open spec fn batching_supported(t: u64, degree: nat) -> bool {
    supports_ntt(t as int, degree) && primitive_root(t as int, degree) is Some && injective(
        index_map(degree),
    )
}

/// The moduli of the basis of the first multiplication.
pub open spec fn first_basis(moduli: Seq<u64>, degree: nat) -> Seq<u64> {
    match extended_basis(moduli, degree, moduli.len() + 1) {
        Some(ext) => moduli + ext.take(extra_count(moduli) as int),
        None => moduli,
    }
}

/// The extra moduli of the second multiplication: as many as the
/// ciphertext moduli.
pub open spec fn second_extension(moduli: Seq<u64>, degree: nat) -> Seq<u64> {
    match extended_basis(moduli, degree, moduli.len() + 1) {
        Some(ext) => ext.take(moduli.len() as int),
        None => Seq::<u64>::empty(),
    }
}

/// The moduli of the basis of the second multiplication.
pub open spec fn second_basis(moduli: Seq<u64>, degree: nat) -> Seq<u64> {
    moduli + second_extension(moduli, degree)
}

/// The failure, if any, of the derivation of the parameters from a degree,
/// a plaintext modulus and ciphertext moduli, in the order in which the
/// derivation meets it.
pub open spec fn derivation_error(degree: nat, t: u64, moduli: Seq<u64>) -> Option<Error> {
    if !valid_ring(moduli, degree) {
        Some(ring_error(moduli, degree))
    } else if !valid_ring(moduli.take(1), degree) {
        Some(ring_error(moduli.take(1), degree))
    } else if !delta_exists(t as int, moduli) {
        Some(Error::PlaintextModulusNotInvertible)
    } else if extended_basis(moduli, degree, moduli.len() + 1) is None {
        Some(Error::PrimeGeneration)
    } else if !valid_ring(first_basis(moduli, degree), degree) {
        Some(ring_error(first_basis(moduli, degree), degree))
    } else if !valid_basis(second_extension(moduli, degree)) {
        Some(basis_error(second_extension(moduli, degree)))
    } else if !valid_ring(second_basis(moduli, degree), degree) {
        Some(ring_error(second_basis(moduli, degree), degree))
    } else {
        None
    }
}

/// The first `n` entries of `v`.
pub fn take_prefix(v: &Vec<u64>, n: usize) -> (r: Vec<u64>)
    requires
        n <= v.len(),
    ensures
        r@ == v@.take(n as int),
{
    let mut out: Vec<u64> = Vec::with_capacity(n);
    let mut i: usize = 0;
    while i < n
        invariant
            i <= n <= v.len(),
            out.len() == i,
            forall|j: int| 0 <= j < i ==> out@[j] == v@[j],
        decreases n - i,
    {
        out.push(v[i]);
        i += 1;
    }
    assert(out@ =~= v@.take(n as int));
    out
}

/// The entries of `a` followed by those of `b`.
pub fn concat(a: &Vec<u64>, b: &Vec<u64>) -> (r: Vec<u64>)
    ensures
        r@ == a@ + b@,
{
    let mut out: Vec<u64> = a.clone();
    let mut i: usize = 0;
    while i < b.len()
        invariant
            i <= b.len(),
            out@ == a@ + b@.take(i as int),
        decreases b.len() - i,
    {
        out.push(b[i]);
        proof {
            assert(out@ =~= a@ + b@.take(i + 1));
        }
        i += 1;
    }
    proof {
        assert(b@.take(b.len() as int) =~= b@);
    }
    out
}

/// What a multiplication needs: the extended ring, two converters into it
/// and one back.
#[derive(Debug, Clone, PartialEq, Eq)]
pub struct MultiplicationParameters {
    extender_self: Scaler,
    extender_other: Scaler,
    down_scaler: Scaler,
    to: Rc<Context>,
}

impl MultiplicationParameters {
    /// The extended ring.
    pub closed spec fn extended(&self) -> &Context {
        &*self.to
    }

    /// The converter of the first operand into the extended ring.
    pub closed spec fn spec_extender_self(&self) -> &Scaler {
        &self.extender_self
    }

    /// The converter of the second operand into the extended ring.
    pub closed spec fn spec_extender_other(&self) -> &Scaler {
        &self.extender_other
    }

    /// The converter of a product back from the extended ring.
    pub closed spec fn spec_down_scaler(&self) -> &Scaler {
        &self.down_scaler
    }

    /// The converters go between the ring `from` and the extended ring.
    pub open spec fn wf(&self, from: &Context) -> bool {
        &&& self.extended().wf()
        &&& self.extender_self().wf()
        &&& self.extender_other().wf()
        &&& self.down_scaler().wf()
        &&& *self.extender_self().source() == *from
        &&& *self.extender_other().source() == *from
        &&& *self.down_scaler().target() == *from
        &&& *self.extender_self().target() == *self.extended()
        &&& *self.extender_other().target() == *self.extended()
        &&& *self.down_scaler().source() == *self.extended()
    }

    /// The converters between the two rings by the three factors; fails
    /// where the rings do not have the same degree.
    pub fn new(
        from: &Rc<Context>,
        to: &Rc<Context>,
        up_self_factor: ScalingFactor,
        up_other_factor: ScalingFactor,
        down_factor: ScalingFactor,
    ) -> (r: Result<MultiplicationParameters, Error>)
        requires
            from.wf(),
            to.wf(),
            up_self_factor.wf(),
            up_other_factor.wf(),
            down_factor.wf(),
        ensures
            r is Ok <==> from.degree() == to.degree(),
            r matches Ok(m) ==> m.wf(&**from) && *m.extended() == **to
                && m.extender_self().num() == up_self_factor.num() && m.extender_self().den()
                == up_self_factor.den() && m.extender_other().num() == up_other_factor.num()
                && m.extender_other().den() == up_other_factor.den() && m.down_scaler().num()
                == down_factor.num() && m.down_scaler().den() == down_factor.den(),
            r matches Err(e) ==> e == Error::IncompatibleContexts,
    {
        let extender_self = match Scaler::new(from, to, up_self_factor) {
            Ok(s) => s,
            Err(e) => {
                return Err(e);
            },
        };
        let extender_other = match Scaler::new(from, to, up_other_factor) {
            Ok(s) => s,
            Err(e) => {
                return Err(e);
            },
        };
        let down_scaler = match Scaler::new(to, from, down_factor) {
            Ok(s) => s,
            Err(e) => {
                return Err(e);
            },
        };
        Ok(MultiplicationParameters { extender_self, extender_other, down_scaler, to: to.clone() })
    }

    /// The converter of the first operand into the extended ring.
    #[verifier::when_used_as_spec(spec_extender_self)]
    pub fn extender_self(&self) -> (r: &Scaler)
        ensures
            r == self.spec_extender_self(),
    {
        &self.extender_self
    }

    /// The converter of the second operand into the extended ring.
    #[verifier::when_used_as_spec(spec_extender_other)]
    pub fn extender_other(&self) -> (r: &Scaler)
        ensures
            r == self.spec_extender_other(),
    {
        &self.extender_other
    }

    /// The converter of a product back from the extended ring.
    #[verifier::when_used_as_spec(spec_down_scaler)]
    pub fn down_scaler(&self) -> (r: &Scaler)
        ensures
            r == self.spec_down_scaler(),
    {
        &self.down_scaler
    }

    /// The extended ring.
    pub fn extended_context(&self) -> (r: &Rc<Context>)
        ensures
            **r == *self.extended(),
    {
        &self.to
    }
}

/// The parameters of the scheme. They are built once and never change.
#[derive(Debug, Clone, PartialEq, Eq)]
pub struct BfvParameters {
    polynomial_degree: usize,
    plaintext_modulus: u64,
    ciphertext_moduli: Vec<u64>,
    ciphertext_moduli_sizes: Vec<usize>,
    variance: usize,
    ctx: Rc<Context>,
    op: Option<NttOperator>,
    delta: Poly,
    q_mod_t: u64,
    scaler: Scaler,
    plaintext: Modulus,
    mul_1_params: MultiplicationParameters,
    mul_2_params: MultiplicationParameters,
    matrix_reps_index_map: Vec<usize>,
}

impl BfvParameters {
    /// The degree of the ring.
    pub closed spec fn spec_degree(&self) -> usize {
        self.polynomial_degree
    }

    /// The ciphertext moduli.
    pub closed spec fn spec_moduli(&self) -> &Vec<u64> {
        &self.ciphertext_moduli
    }

    /// The number of binary digits of each ciphertext modulus.
    pub closed spec fn spec_moduli_sizes(&self) -> &Vec<usize> {
        &self.ciphertext_moduli_sizes
    }

    /// The plaintext modulus.
    pub closed spec fn spec_plaintext_modulus(&self) -> u64 {
        self.plaintext_modulus
    }

    /// The variance of the noise.
    pub closed spec fn spec_variance(&self) -> usize {
        self.variance
    }

    /// The ring of the ciphertexts.
    pub closed spec fn context(&self) -> &Context {
        &*self.ctx
    }

    /// The plaintext scaling polynomial.
    pub closed spec fn spec_delta(&self) -> &Poly {
        &self.delta
    }

    /// The converter from ciphertexts to plaintexts.
    pub closed spec fn spec_scaler(&self) -> &Scaler {
        &self.scaler
    }

    /// The transform of the plaintext space, where it has one.
    pub closed spec fn spec_op(&self) -> Option<NttOperator> {
        self.op
    }

    /// The order of the slots of the batched encoding.
    pub closed spec fn spec_index_map(&self) -> &Vec<usize> {
        &self.matrix_reps_index_map
    }

    /// What the first multiplication needs.
    pub closed spec fn spec_mul_1_params(&self) -> &MultiplicationParameters {
        &self.mul_1_params
    }

    /// What the second multiplication needs.
    pub closed spec fn spec_mul_2_params(&self) -> &MultiplicationParameters {
        &self.mul_2_params
    }

    /// The ciphertext modulus modulo the plaintext modulus.
    pub closed spec fn spec_q_mod_t(&self) -> u64 {
        self.q_mod_t
    }

    /// The modulus of the plaintext space.
    pub closed spec fn spec_plaintext(&self) -> &Modulus {
        &self.plaintext
    }

    /// Everything derived is what the derivation gives for the degree, the
    /// plaintext modulus and the ciphertext moduli.
    pub open spec fn wf(&self) -> bool {
        let n = self.degree() as nat;
        let t = self.plaintext_modulus();
        let m = self.moduli()@;
        &&& derivation_error(n, t, m) is None
        &&& n >= 8
        &&& is_power_of_two(n)
        &&& 2 <= t < 0x4000_0000_0000_0000
        &&& 1 <= self.variance() <= 16
        &&& self.moduli_sizes()@ == sizes_of(m)
        &&& self.context().wf()
        &&& self.context().moduli()@ == m
        &&& self.context().degree() == self.degree()
        &&& self.plaintext().wf()
        &&& self.plaintext()@ == t
        &&& match self.spec_op() {
            Some(op) => op.wf() && op.modulus() == t && op.size() == n && batching_supported(
                t,
                n,
            ),
            None => !batching_supported(t, n),
        }
        &&& self.delta().fits(self.context())
        &&& self.delta().representation() == Representation::NttShoup
        &&& self.delta().rows() == delta_rows(t, m, n)
        &&& self.q_mod_t() == product_of(m) % (t as nat)
        &&& self.scaler().wf()
        &&& *self.scaler().source() == *self.context()
        &&& self.scaler().target().moduli()@ == m.take(1)
        &&& self.scaler().target().degree() == self.degree()
        &&& self.scaler().num() == t
        &&& self.scaler().den() == product_of(m)
        &&& self.mul_1_params().wf(self.context())
        &&& self.mul_1_params().extended().moduli()@ == first_basis(m, n)
        &&& self.mul_1_params().extended().degree() == self.degree()
        &&& self.mul_1_params().extender_self().num() == 1
        &&& self.mul_1_params().extender_self().den() == 1
        &&& self.mul_1_params().extender_other().num() == 1
        &&& self.mul_1_params().extender_other().den() == 1
        &&& self.mul_1_params().down_scaler().num() == t
        &&& self.mul_1_params().down_scaler().den() == product_of(m)
        &&& self.mul_2_params().wf(self.context())
        &&& self.mul_2_params().extended().moduli()@ == second_basis(m, n)
        &&& self.mul_2_params().extended().degree() == self.degree()
        &&& self.mul_2_params().extender_self().num() == 1
        &&& self.mul_2_params().extender_self().den() == 1
        &&& self.mul_2_params().extender_other().num() == product_of(second_extension(m, n))
        &&& self.mul_2_params().extender_other().den() == product_of(m)
        &&& self.mul_2_params().down_scaler().num() == t
        &&& self.mul_2_params().down_scaler().den() == product_of(second_extension(m, n))
        &&& self.index_map()@ == index_map(n)
        &&& forall|i: int| 0 <= i < self.index_map()@.len() ==> (#[trigger] self.index_map()@[i]) < n
    }

    /// The degree of the ring.
    #[verifier::when_used_as_spec(spec_degree)]
    pub fn degree(&self) -> (r: usize)
        ensures
            r == self.spec_degree(),
    {
        self.polynomial_degree
    }

    /// The ciphertext moduli.
    #[verifier::when_used_as_spec(spec_moduli)]
    pub fn moduli(&self) -> (r: &Vec<u64>)
        ensures
            r == self.spec_moduli(),
    {
        &self.ciphertext_moduli
    }

    /// The number of binary digits of each ciphertext modulus.
    #[verifier::when_used_as_spec(spec_moduli_sizes)]
    pub fn moduli_sizes(&self) -> (r: &Vec<usize>)
        ensures
            r == self.spec_moduli_sizes(),
    {
        &self.ciphertext_moduli_sizes
    }

    /// The plaintext modulus.
    #[verifier::when_used_as_spec(spec_plaintext_modulus)]
    pub fn plaintext_modulus(&self) -> (r: u64)
        ensures
            r == self.spec_plaintext_modulus(),
    {
        self.plaintext_modulus
    }

    /// The variance of the noise.
    #[verifier::when_used_as_spec(spec_variance)]
    pub fn variance(&self) -> (r: usize)
        ensures
            r == self.spec_variance(),
    {
        self.variance
    }

    /// The ring of the ciphertexts.
    pub fn ctx(&self) -> (r: &Rc<Context>)
        ensures
            **r == *self.context(),
    {
        &self.ctx
    }

    /// The modulus of the plaintext space.
    #[verifier::when_used_as_spec(spec_plaintext)]
    pub fn plaintext(&self) -> (r: &Modulus)
        ensures
            r == self.spec_plaintext(),
    {
        &self.plaintext
    }

    /// The plaintext scaling polynomial.
    #[verifier::when_used_as_spec(spec_delta)]
    pub fn delta(&self) -> (r: &Poly)
        ensures
            r == self.spec_delta(),
    {
        &self.delta
    }

    /// The ciphertext modulus modulo the plaintext modulus.
    #[verifier::when_used_as_spec(spec_q_mod_t)]
    pub fn q_mod_t(&self) -> (r: u64)
        ensures
            r == self.spec_q_mod_t(),
    {
        self.q_mod_t
    }

    /// The converter from ciphertexts to plaintexts.
    #[verifier::when_used_as_spec(spec_scaler)]
    pub fn scaler(&self) -> (r: &Scaler)
        ensures
            r == self.spec_scaler(),
    {
        &self.scaler
    }

    /// The transform of the plaintext space, where it has one.
    pub fn op(&self) -> (r: Option<&NttOperator>)
        ensures
            r is Some <==> self.spec_op() is Some,
            r matches Some(o) ==> Some(*o) == self.spec_op(),
    {
        match &self.op {
            Some(o) => Some(o),
            None => None,
        }
    }

    /// The order of the slots of the batched encoding.
    #[verifier::when_used_as_spec(spec_index_map)]
    pub fn index_map(&self) -> (r: &Vec<usize>)
        ensures
            r == self.spec_index_map(),
    {
        &self.matrix_reps_index_map
    }

    /// What the first multiplication needs.
    #[verifier::when_used_as_spec(spec_mul_1_params)]
    pub fn mul_1_params(&self) -> (r: &MultiplicationParameters)
        ensures
            r == self.spec_mul_1_params(),
    {
        &self.mul_1_params
    }

    /// What the second multiplication needs.
    #[verifier::when_used_as_spec(spec_mul_2_params)]
    pub fn mul_2_params(&self) -> (r: &MultiplicationParameters)
        ensures
            r == self.spec_mul_2_params(),
    {
        &self.mul_2_params
    }

    /// Two parameter sets are the same: they have the same degree,
    /// plaintext modulus, ciphertext moduli and variance, from which
    /// everything else is derived.
    pub open spec fn spec_same_as(&self, other: &BfvParameters) -> bool {
        self.degree() == other.degree() && self.plaintext_modulus() == other.plaintext_modulus()
            && self.variance() == other.variance() && self.moduli()@ == other.moduli()@
    }

    /// Whether two parameter sets are the same.
    #[verifier::when_used_as_spec(spec_same_as)]
    pub fn same_as(&self, other: &BfvParameters) -> (r: bool)
        ensures
            r == self.spec_same_as(other),
    {
        if self.polynomial_degree != other.polynomial_degree || self.plaintext_modulus
            != other.plaintext_modulus || self.variance != other.variance
            || self.ciphertext_moduli.len() != other.ciphertext_moduli.len() {
            return false;
        }
        let mut i: usize = 0;
        while i < self.ciphertext_moduli.len()
            invariant
                i <= self.ciphertext_moduli.len(),
                self.ciphertext_moduli.len() == other.ciphertext_moduli.len(),
                forall|j: int|
                    0 <= j < i ==> self.ciphertext_moduli@[j] == other.ciphertext_moduli@[j],
            decreases self.ciphertext_moduli.len() - i,
        {
            if self.ciphertext_moduli[i] != other.ciphertext_moduli[i] {
                return false;
            }
            i += 1;
        }
        assert(self.ciphertext_moduli@ =~= other.ciphertext_moduli@);
        true
    }

    /// The parameters of degree 8 and plaintext modulus 1153 with
    /// `num_moduli` ciphertext moduli of 62 binary digits.
    pub fn default(num_moduli: usize) -> (r: Result<BfvParameters, Error>)
        ensures
            match r {
                Ok(p) => build_error(
                    Some(8usize),
                    Some(1153u64),
                    None,
                    Some(Seq::new(num_moduli as nat, |i: int| 62usize)),
                    None,
                ) is None && p.wf() && p.degree() == 8 && p.plaintext_modulus() == 1153
                    && p.variance() == 1 && Ok::<Seq<u64>, Error>(p.moduli()@) == chosen_moduli(
                    8,
                    None,
                    Some(Seq::new(num_moduli as nat, |i: int| 62usize)),
                ),
                Err(e) => build_error(
                    Some(8usize),
                    Some(1153u64),
                    None,
                    Some(Seq::new(num_moduli as nat, |i: int| 62usize)),
                    None,
                ) == Some(e),
            },
    {
        let mut sizes: Vec<usize> = Vec::with_capacity(num_moduli);
        let mut i: usize = 0;
        while i < num_moduli
            invariant
                i <= num_moduli,
                sizes.len() == i,
                forall|j: int| 0 <= j < i ==> sizes@[j] == 62,
            decreases num_moduli - i,
        {
            sizes.push(62);
            i += 1;
        }
        assert(sizes@ =~= Seq::new(num_moduli as nat, |i: int| 62usize));
        BfvParametersBuilder::default().polynomial_degree(8).plaintext_modulus(
            1153,
        ).ciphertext_moduli_sizes(sizes).build()
    }

    /// The parameters derived from a valid degree, plaintext modulus and
    /// variance, and from the ciphertext moduli.
    fn derive(degree: usize, t: u64, moduli: Vec<u64>, variance: usize) -> (r: Result<
        BfvParameters,
        Error,
    >)
        requires
            8 <= degree < 0x4000_0000_0000_0000,
            is_power_of_two(degree as nat),
            2 <= t < 0x4000_0000_0000_0000,
            1 <= variance <= 16,
        ensures
            match r {
                Ok(p) => derivation_error(degree as nat, t, moduli@) is None && p.wf()
                    && p.degree() == degree && p.plaintext_modulus() == t && p.variance()
                    == variance && p.moduli()@ == moduli@,
                Err(e) => derivation_error(degree as nat, t, moduli@) == Some(e),
            },
    {
        let ghost n = degree as nat;
        let ghost m = moduli@;
        let ctx = match Context::new(&moduli, degree) {
            Ok(c) => Rc::new(c),
            Err(e) => {
                return Err(e);
            },
        };
        proof {
            ctx.lemma_wf();
            lemma_product_at_least_two(m);
        }
        let k = moduli.len();
        let first = take_prefix(&moduli, 1);
        let plaintext_ctx = match Context::new(&first, degree) {
            Ok(c) => Rc::new(c),
            Err(e) => {
                return Err(e);
            },
        };
        let plaintext = match Modulus::new(t) {
            Ok(p) => p,
            Err(e) => {
                return Err(e);
            },
        };
        let t_big = big_from_word(t);
        let scaler = match ScalingFactor::new(&t_big, ctx.rns().modulus()) {
            Some(f) => match Scaler::new(&ctx, &plaintext_ctx, f) {
                Ok(s) => s,
                Err(e) => {
                    return Err(e);
                },
            },
            None => {
                return Err(Error::IncompatibleContexts);
            },
        };
        let rests = match compute_delta_rests(t, &ctx) {
            Some(r) => r,
            None => {
                return Err(Error::PlaintextModulusNotInvertible);
            },
        };
        let delta_big = ctx.rns().lift(&view_of(&rests));
        let mut delta = Poly::constant(&delta_big, &ctx);
        delta.change_representation(Representation::NttShoup, &ctx);
        let q_rest = big_rem(ctx.rns().modulus(), &t_big);
        proof {
            lemma_mod_bound(product_of(m) as int, t as int);
        }
        let q_mod_t = match big_to_word(&q_rest) {
            Some(x) => x,
            None => 0,
        };
        proof {
            assert(4 * n * k <= usize::MAX);
            assert(16 * k <= usize::MAX) by (nonlinear_arith)
                requires
                    4 * n * k <= usize::MAX,
                    n >= 8,
            ;
            assert(2 * n <= usize::MAX) by (nonlinear_arith)
                requires
                    4 * n * k <= usize::MAX,
                    k >= 1,
            ;
        }
        let ext = match extend_basis(&moduli, degree, k + 1) {
            Some(e) => e,
            None => {
                return Err(Error::PrimeGeneration);
            },
        };
        proof {
            lemma_extended_len(m, n, (k + 1) as nat);
        }
        let sizes = moduli_sizes_of(&moduli);
        let total = sum_sizes(&sizes);
        proof {
            lemma_total_size_small(sizes@);
        }
        let n1 = ((total + 121) / 62) as usize;
        let extra_1 = take_prefix(&ext, n1);
        let basis_1 = concat(&moduli, &extra_1);
        let mul_1_ctx = match Context::new(&basis_1, degree) {
            Ok(c) => Rc::new(c),
            Err(e) => {
                return Err(e);
            },
        };
        let mul_1_params = match ScalingFactor::new(&t_big, ctx.rns().modulus()) {
            Some(down) => match MultiplicationParameters::new(
                &ctx,
                &mul_1_ctx,
                ScalingFactor::one(),
                ScalingFactor::one(),
                down,
            ) {
                Ok(p) => p,
                Err(e) => {
                    return Err(e);
                },
            },
            None => {
                return Err(Error::IncompatibleContexts);
            },
        };
        let extra_2 = take_prefix(&ext, k);
        let rns_2 = match RnsContext::new(&extra_2) {
            Ok(r) => r,
            Err(e) => {
                return Err(e);
            },
        };
        proof {
            rns_2.lemma_wf();
            lemma_product_at_least_two(extra_2@);
        }
        let basis_2 = concat(&moduli, &extra_2);
        let mul_2_ctx = match Context::new(&basis_2, degree) {
            Ok(c) => Rc::new(c),
            Err(e) => {
                return Err(e);
            },
        };
        let up_other = ScalingFactor::new(rns_2.modulus(), ctx.rns().modulus());
        let down_2 = ScalingFactor::new(&t_big, rns_2.modulus());
        let mul_2_params = match (up_other, down_2) {
            (Some(up), Some(down)) => match MultiplicationParameters::new(
                &ctx,
                &mul_2_ctx,
                ScalingFactor::one(),
                up,
                down,
            ) {
                Ok(p) => p,
                Err(e) => {
                    return Err(e);
                },
            },
            _ => {
                return Err(Error::IncompatibleContexts);
            },
        };
        let matrix_reps_index_map = matrix_reps_index_map(degree);
        proof {
            lemma_index_map_injective(degree as nat);
        }
        let op = NttOperator::new(&plaintext, degree);
        Ok(
            BfvParameters {
                polynomial_degree: degree,
                plaintext_modulus: t,
                ciphertext_moduli: moduli,
                ciphertext_moduli_sizes: sizes,
                variance,
                ctx,
                op,
                delta,
                q_mod_t,
                scaler,
                plaintext,
                mul_1_params,
                mul_2_params,
                matrix_reps_index_map,
            },
        )
    }
}

/// The extended basis has as many primes as were asked for.
pub proof fn lemma_extended_len(moduli: Seq<u64>, degree: nat, count: nat)
    ensures
        extended_basis(moduli, degree, count) matches Some(ext) ==> ext.len() == count,
    decreases count,
{
    if count > 0 {
        lemma_extended_len(moduli, degree, (count - 1) as nat);
    }
}

/// Sizes of at most 62 binary digits sum to at most 62 for each.
pub proof fn lemma_total_size_small(sizes: Seq<usize>)
    requires
        forall|i: int| 0 <= i < sizes.len() ==> (#[trigger] sizes[i]) <= 62,
    ensures
        total_size(sizes) <= 62 * sizes.len(),
        (total_size(sizes) + 121) / 62 <= sizes.len() + 1,
    decreases sizes.len(),
{
    if sizes.len() > 0 {
        lemma_total_size_small(sizes.drop_last());
    }
}

/// The failure, if any, that the inputs of a builder give before any
/// modulus is chosen.
pub open spec fn input_error(
    degree: Option<usize>,
    t: Option<u64>,
    moduli: Option<Seq<u64>>,
    sizes: Option<Seq<usize>>,
) -> Option<Error> {
    let given_moduli = match moduli {
        Some(m) => m,
        None => Seq::<u64>::empty(),
    };
    let given_sizes = match sizes {
        Some(s) => s,
        None => Seq::<usize>::empty(),
    };
    match degree {
        None => Some(Error::UninitializedDegree),
        Some(d) => if d < 8 || !is_power_of_two(d as nat) || d as int >= 0x4000_0000_0000_0000 {
            Some(Error::InvalidDegree)
        } else {
            match t {
                None => Some(Error::UninitializedPlaintextModulus),
                Some(t) => if !(2 <= t < 0x4000_0000_0000_0000) {
                    Some(Error::ModulusOutOfRange)
                } else if (given_moduli.len() == 0) == (given_sizes.len() == 0) {
                    Some(Error::ModuliSpecification)
                } else {
                    None
                },
            }
        },
    }
}

/// The ciphertext moduli of a builder: those given, or those generated for
/// the sizes given.
pub open spec fn chosen_moduli(
    degree: nat,
    moduli: Option<Seq<u64>>,
    sizes: Option<Seq<usize>>,
) -> Result<Seq<u64>, Error> {
    match sizes {
        Some(s) => if s.len() > 0 {
            generated_moduli(s, degree)
        } else {
            match moduli {
                Some(m) => Ok(m),
                None => Ok(Seq::<u64>::empty()),
            }
        },
        None => match moduli {
            Some(m) => Ok(m),
            None => Ok(Seq::<u64>::empty()),
        },
    }
}

/// The variance of a builder: the one given, or 1.
pub open spec fn chosen_variance(variance: Option<usize>) -> usize {
    match variance {
        Some(v) => v,
        None => 1,
    }
}

/// The failure, if any, of building parameters from the inputs of a
/// builder: that of the inputs, else that of the choice of the moduli, else
/// that of the variance, else that of the derivation.
pub open spec fn build_error(
    degree: Option<usize>,
    t: Option<u64>,
    moduli: Option<Seq<u64>>,
    sizes: Option<Seq<usize>>,
    variance: Option<usize>,
) -> Option<Error> {
    match input_error(degree, t, moduli, sizes) {
        Some(e) => Some(e),
        None => match chosen_moduli(degree.unwrap() as nat, moduli, sizes) {
            Err(e) => Some(e),
            Ok(m) => if !(1 <= chosen_variance(variance) <= 16) {
                Some(Error::Variance)
            } else {
                derivation_error(degree.unwrap() as nat, t.unwrap(), m)
            },
        },
    }
}

/// The view of an optional vector.
pub open spec fn optional_view<T>(v: Option<Vec<T>>) -> Option<Seq<T>> {
    match v {
        Some(x) => Some(x@),
        None => None,
    }
}

/// The inputs from which parameters are built.
#[derive(Debug, Clone, PartialEq, Eq)]
pub struct BfvParametersBuilder {
    /// The degree of the ring.
    pub polynomial_degree: Option<usize>,
    /// The plaintext modulus.
    pub plaintext_modulus: Option<u64>,
    /// The ciphertext moduli; give them or their sizes, not both.
    pub ciphertext_moduli: Option<Vec<u64>>,
    /// The sizes of the ciphertext moduli; give them or the moduli, not both.
    pub ciphertext_moduli_sizes: Option<Vec<usize>>,
    /// The variance of the noise; 1 where none is given.
    pub variance: Option<usize>,
}

impl Default for BfvParametersBuilder {
    fn default() -> (r: BfvParametersBuilder)
        ensures
            r.polynomial_degree is None,
            r.plaintext_modulus is None,
            r.ciphertext_moduli is None,
            r.ciphertext_moduli_sizes is None,
            r.variance is None,
    {
        BfvParametersBuilder {
            polynomial_degree: None,
            plaintext_modulus: None,
            ciphertext_moduli: None,
            ciphertext_moduli_sizes: None,
            variance: None,
        }
    }
}

impl BfvParametersBuilder {
    /// The failure, if any, of building from these inputs.
    pub open spec fn error(&self) -> Option<Error> {
        build_error(
            self.polynomial_degree,
            self.plaintext_modulus,
            optional_view(self.ciphertext_moduli),
            optional_view(self.ciphertext_moduli_sizes),
            self.variance,
        )
    }

    /// Sets the degree of the ring.
    pub fn polynomial_degree(self, value: usize) -> (r: BfvParametersBuilder)
        ensures
            r == (BfvParametersBuilder { polynomial_degree: Some(value), ..self }),
    {
        BfvParametersBuilder { polynomial_degree: Some(value), ..self }
    }

    /// Sets the plaintext modulus.
    pub fn plaintext_modulus(self, value: u64) -> (r: BfvParametersBuilder)
        ensures
            r == (BfvParametersBuilder { plaintext_modulus: Some(value), ..self }),
    {
        BfvParametersBuilder { plaintext_modulus: Some(value), ..self }
    }

    /// Sets the ciphertext moduli.
    pub fn ciphertext_moduli(self, value: Vec<u64>) -> (r: BfvParametersBuilder)
        ensures
            r == (BfvParametersBuilder { ciphertext_moduli: Some(value), ..self }),
    {
        BfvParametersBuilder { ciphertext_moduli: Some(value), ..self }
    }

    /// Sets the sizes of the ciphertext moduli.
    pub fn ciphertext_moduli_sizes(self, value: Vec<usize>) -> (r: BfvParametersBuilder)
        ensures
            r == (BfvParametersBuilder { ciphertext_moduli_sizes: Some(value), ..self }),
    {
        BfvParametersBuilder { ciphertext_moduli_sizes: Some(value), ..self }
    }

    /// Sets the variance of the noise.
    pub fn variance(self, value: usize) -> (r: BfvParametersBuilder)
        ensures
            r == (BfvParametersBuilder { variance: Some(value), ..self }),
    {
        BfvParametersBuilder { variance: Some(value), ..self }
    }

    /// The parameters for these inputs, or the first failure that their
    /// validation and the derivation meet.
    pub fn build(&self) -> (r: Result<BfvParameters, Error>)
        ensures
            match r {
                Ok(p) => self.error() is None && p.wf() && Some(p.degree())
                    == self.polynomial_degree && Some(p.plaintext_modulus())
                    == self.plaintext_modulus && p.variance() == chosen_variance(self.variance)
                    && Ok::<Seq<u64>, Error>(p.moduli()@) == chosen_moduli(
                    p.degree() as nat,
                    optional_view(self.ciphertext_moduli),
                    optional_view(self.ciphertext_moduli_sizes),
                ),
                Err(e) => self.error() == Some(e),
            },
    {
        let degree = match self.polynomial_degree {
            Some(d) => d,
            None => {
                return Err(Error::UninitializedDegree);
            },
        };
        if degree < 8 || !check_power_of_two(degree) || degree as u64 >= 0x4000_0000_0000_0000 {
            return Err(Error::InvalidDegree);
        }
        let t = match self.plaintext_modulus {
            Some(t) => t,
            None => {
                return Err(Error::UninitializedPlaintextModulus);
            },
        };
        if t < 2 || t >= 0x4000_0000_0000_0000 {
            return Err(Error::ModulusOutOfRange);
        }
        let no_moduli = match &self.ciphertext_moduli {
            Some(m) => m.len() == 0,
            None => true,
        };
        let no_sizes = match &self.ciphertext_moduli_sizes {
            Some(s) => s.len() == 0,
            None => true,
        };
        if no_moduli == no_sizes {
            return Err(Error::ModuliSpecification);
        }
        let moduli: Vec<u64> = match &self.ciphertext_moduli_sizes {
            Some(s) => if s.len() > 0 {
                match generate_moduli(s, degree) {
                    Ok(m) => m,
                    Err(e) => {
                        return Err(e);
                    },
                }
            } else {
                match &self.ciphertext_moduli {
                    Some(m) => m.clone(),
                    None => Vec::new(),
                }
            },
            None => match &self.ciphertext_moduli {
                Some(m) => m.clone(),
                None => Vec::new(),
            },
        };
        let variance = match self.variance {
            Some(v) => v,
            None => 1,
        };
        if variance < 1 || variance > 16 {
            return Err(Error::Variance);
        }
        BfvParameters::derive(degree, t, moduli, variance)
    }
}

} // verus!

//! Residue number systems: a large modulus held as a list of small moduli.

use crate::bigint::{
    big_add, big_div, big_from_word, big_less, big_mul, big_rem, big_to_word,
    big_value,
};
use crate::errors::Error;
use crate::views::{view_at, view_entries, ResidueView};
use crate::zq::{inv_mod, Modulus};
use num_bigint::BigUint;
use vstd::arithmetic::div_mod::*;
use vstd::arithmetic::mul::*;
use vstd::prelude::*;

verus! {

/// The product of the moduli.
pub open spec fn product_of(moduli: Seq<u64>) -> nat
    decreases moduli.len(),
{
    if moduli.len() == 0 {
        1
    } else {
        product_of(moduli.drop_last()) * (moduli.last() as nat)
    }
}

/// The product of all the moduli but the one at `i`.
pub open spec fn cofactor(moduli: Seq<u64>, i: int) -> nat {
    product_of(moduli) / (moduli[i] as nat)
}

/// The inverse of the cofactor at `i` modulo the modulus at `i`.
pub open spec fn cofactor_inverse(moduli: Seq<u64>, i: int) -> Option<int> {
    inv_mod((cofactor(moduli, i) % (moduli[i] as nat)) as int, moduli[i] as int)
}

/// The Garner coefficient at `i`: the cofactor times its inverse, which is
/// 1 modulo the modulus at `i` and 0 modulo every other.
pub open spec fn garner(moduli: Seq<u64>, i: int) -> nat {
    match cofactor_inverse(moduli, i) {
        Some(x) => cofactor(moduli, i) * (x as nat),
        None => 0,
    }
}

/// The sum of the first `k` residues, each times its Garner coefficient.
pub open spec fn garner_sum(moduli: Seq<u64>, rests: Seq<u64>, k: nat) -> nat
    decreases k,
{
    if k == 0 {
        0
    } else {
        garner_sum(moduli, rests, (k - 1) as nat) + garner(moduli, k - 1) * (rests[k - 1] as nat)
    }
}

/// The residues of the number 1.
pub open spec fn ones(n: nat) -> Seq<u64> {
    Seq::new(n, |i: int| 1u64)
}

/// Every modulus lies in `[2, 2^62)`.
pub open spec fn moduli_in_range(moduli: Seq<u64>) -> bool {
    forall|i: int| 0 <= i < moduli.len() ==> 2 <= #[trigger] moduli[i] < 0x4000_0000_0000_0000
}

/// Every cofactor has an inverse.
pub open spec fn cofactors_invertible(moduli: Seq<u64>) -> bool {
    forall|i: int| 0 <= i < moduli.len() ==> (#[trigger] cofactor_inverse(moduli, i)) is Some
}

/// The moduli allow Chinese-remainder reconstruction: there is at least
/// one, each is in range, each cofactor has an inverse, and the Garner
/// coefficients reconstruct the number 1.
pub open spec fn valid_basis(moduli: Seq<u64>) -> bool {
    &&& moduli.len() > 0
    &&& moduli_in_range(moduli)
    &&& cofactors_invertible(moduli)
    &&& garner_sum(moduli, ones(moduli.len()), moduli.len()) % product_of(moduli) == 1
}

/// The failure that a list of moduli without reconstruction gives.
pub open spec fn basis_error(moduli: Seq<u64>) -> Error {
    if moduli.len() == 0 {
        Error::EmptyBasis
    } else if !moduli_in_range(moduli) {
        Error::ModulusOutOfRange
    } else {
        Error::ModuliNotCoprime
    }
}

/// The number below the product of the moduli that the residues stand for.
pub open spec fn lift_value(moduli: Seq<u64>, rests: Seq<u64>) -> nat {
    garner_sum(moduli, rests, moduli.len()) % product_of(moduli)
}

/// The residues of `x` modulo each modulus.
pub open spec fn project_value(moduli: Seq<u64>, x: nat) -> Seq<u64> {
    Seq::new(moduli.len(), |i: int| (x % (moduli[i] as nat)) as u64)
}

/// The product of the first `i + 1` moduli is that of the first `i` times
/// the next.
pub proof fn lemma_product_step(moduli: Seq<u64>, i: int)
    requires
        0 <= i < moduli.len(),
    ensures
        product_of(moduli.take(i + 1)) == product_of(moduli.take(i)) * (moduli[i] as nat),
{
    assert(moduli.take(i + 1).drop_last() =~= moduli.take(i));
}

/// A product of positive moduli is positive.
pub proof fn lemma_product_positive(moduli: Seq<u64>)
    requires
        forall|i: int| 0 <= i < moduli.len() ==> (#[trigger] moduli[i]) >= 1,
    ensures
        product_of(moduli) >= 1,
    decreases moduli.len(),
{
    if moduli.len() > 0 {
        lemma_product_positive(moduli.drop_last());
        lemma_mul_strictly_positive(
            product_of(moduli.drop_last()) as int,
            moduli.last() as int,
        );
    }
}

/// A product of moduli of at least 2, one at least, is at least 2.
pub proof fn lemma_product_at_least_two(moduli: Seq<u64>)
    requires
        moduli.len() > 0,
        forall|i: int| 0 <= i < moduli.len() ==> (#[trigger] moduli[i]) >= 2,
    ensures
        product_of(moduli) >= 2,
{
    lemma_product_positive(moduli.drop_last());
    let a = product_of(moduli.drop_last());
    let b = moduli.last() as nat;
    assert(a * b >= 2) by (nonlinear_arith)
        requires
            a >= 1,
            b >= 2,
    ;
}

/// The Chinese-remainder data of a list of moduli.
#[derive(Debug, Clone, PartialEq, Eq)]
pub struct RnsContext {
    moduli_u64: Vec<u64>,
    moduli: Vec<Modulus>,
    garner: Vec<BigUint>,
    product: BigUint,
}

impl RnsContext {
    /// The moduli of the system.
    pub closed spec fn moduli(&self) -> Seq<u64> {
        self.moduli_u64@
    }

    /// The data are those of the moduli, and the moduli allow reconstruction.
    pub closed spec fn wf(&self) -> bool {
        &&& valid_basis(self.moduli_u64@)
        &&& self.moduli.len() == self.moduli_u64.len()
        &&& self.garner.len() == self.moduli_u64.len()
        &&& forall|i: int|
            0 <= i < self.moduli.len() ==> (#[trigger] self.moduli@[i]).wf() && self.moduli@[i]@
                == self.moduli_u64@[i]
        &&& forall|i: int|
            0 <= i < self.garner.len() ==> big_value(#[trigger] self.garner@[i]) == garner(
                self.moduli_u64@,
                i,
            )
        &&& big_value(self.product) == product_of(self.moduli_u64@)
    }

    /// A well-formed system has a valid basis.
    pub proof fn lemma_wf(&self)
        requires
            self.wf(),
        ensures
            valid_basis(self.moduli()),
    {
    }

    /// The system of the moduli; fails where they allow no reconstruction.
    pub fn new(moduli: &Vec<u64>) -> (r: Result<RnsContext, Error>)
        ensures
            r is Ok <==> valid_basis(moduli@),
            r matches Ok(ctx) ==> ctx.wf() && ctx.moduli() == moduli@,
            r matches Err(e) ==> e == basis_error(moduli@),
    {
        let n = moduli.len();
        if n == 0 {
            return Err(Error::EmptyBasis);
        }
        let mut ms: Vec<Modulus> = Vec::with_capacity(n);
        let mut product = big_from_word(1);
        let mut i: usize = 0;
        while i < n
            invariant
                n == moduli.len(),
                i <= n,
                ms.len() == i,
                forall|j: int| 0 <= j < i ==> 2 <= #[trigger] moduli@[j] < 0x4000_0000_0000_0000,
                forall|j: int| 0 <= j < i ==> (#[trigger] ms@[j]).wf() && ms@[j]@ == moduli@[j],
                big_value(product) == product_of(moduli@.take(i as int)),
            decreases n - i,
        {
            match Modulus::new(moduli[i]) {
                Ok(m) => {
                    ms.push(m);
                },
                Err(_) => {
                    return Err(Error::ModulusOutOfRange);
                },
            }
            proof {
                lemma_product_step(moduli@, i as int);
            }
            product = big_mul(&product, &big_from_word(moduli[i]));
            i += 1;
        }
        proof {
            assert(moduli@.take(n as int) =~= moduli@);
            lemma_product_at_least_two(moduli@);
        }
        let ghost q = product_of(moduli@);
        let mut garner_vec: Vec<BigUint> = Vec::with_capacity(n);
        let mut sum = big_from_word(0);
        let mut i: usize = 0;
        while i < n
            invariant
                n == moduli.len(),
                n > 0,
                i <= n,
                ms.len() == n,
                garner_vec.len() == i,
                moduli_in_range(moduli@),
                forall|j: int| 0 <= j < n ==> (#[trigger] ms@[j]).wf() && ms@[j]@ == moduli@[j],
                q == product_of(moduli@),
                q >= 2,
                big_value(product) == q,
                forall|j: int| 0 <= j < i ==> (#[trigger] cofactor_inverse(moduli@, j)) is Some,
                forall|j: int|
                    0 <= j < i ==> big_value(#[trigger] garner_vec@[j]) == garner(moduli@, j),
                big_value(sum) == garner_sum(moduli@, ones(n as nat), i as nat),
            decreases n - i,
        {
            let qi = big_from_word(moduli[i]);
            let star = big_div(&product, &qi);
            let rest = big_rem(&star, &qi);
            proof {
                lemma_mod_bound(big_value(star) as int, moduli@[i as int] as int);
            }
            let rest_word = match big_to_word(&rest) {
                Some(x) => x,
                None => {
                    return Err(Error::ModuliNotCoprime);
                },
            };
            let tilde = match ms[i].inv(rest_word) {
                Some(x) => x,
                None => {
                    return Err(Error::ModuliNotCoprime);
                },
            };
            let g = big_mul(&star, &big_from_word(tilde));
            proof {
                assert(garner(moduli@, i as int) * 1 == garner(moduli@, i as int)) by {
                    lemma_mul_basics(garner(moduli@, i as int) as int);
                }
            }
            sum = big_add(&sum, &g);
            garner_vec.push(g);
            i += 1;
        }
        let check = big_rem(&sum, &product);
        match big_to_word(&check) {
            Some(1) => {},
            _ => {
                return Err(Error::ModuliNotCoprime);
            },
        }
        Ok(RnsContext { moduli_u64: moduli.clone(), moduli: ms, garner: garner_vec, product })
    }

    /// The product of the moduli.
    pub fn modulus(&self) -> (r: &BigUint)
        requires
            self.wf(),
        ensures
            big_value(*r) == product_of(self.moduli()),
    {
        &self.product
    }

    /// The number of moduli.
    pub fn len(&self) -> (r: usize)
        requires
            self.wf(),
        ensures
            r == self.moduli().len(),
            r > 0,
    {
        self.moduli_u64.len()
    }

    /// The Garner coefficient at `i`, where there is one.
    pub fn get_garner(&self, i: usize) -> (r: Option<&BigUint>)
        requires
            self.wf(),
        ensures
            r is Some <==> i < self.moduli().len(),
            r matches Some(g) ==> big_value(*g) == garner(self.moduli(), i as int),
    {
        if i < self.garner.len() {
            Some(&self.garner[i])
        } else {
            None
        }
    }

    /// The number below the product of the moduli that has the residues
    /// that the view `rests` shows.
    pub fn lift(&self, rests: &ResidueView) -> (r: BigUint)
        requires
            self.wf(),
            view_entries(*rests).len() == self.moduli().len(),
        ensures
            big_value(r) == lift_value(self.moduli(), view_entries(*rests)),
    {
        let n = self.moduli_u64.len();
        let mut sum = big_from_word(0);
        let mut i: usize = 0;
        while i < n
            invariant
                self.wf(),
                n == self.moduli_u64.len(),
                view_entries(*rests).len() == n,
                i <= n,
                big_value(sum) == garner_sum(self.moduli_u64@, view_entries(*rests), i as nat),
            decreases n - i,
        {
            let term = big_mul(&self.garner[i], &big_from_word(view_at(rests, i)));
            sum = big_add(&sum, &term);
            i += 1;
        }
        proof {
            lemma_product_at_least_two(self.moduli_u64@);
        }
        big_rem(&sum, &self.product)
    }

    /// The residues of `a` modulo each modulus.
    pub fn project(&self, a: &BigUint) -> (r: Vec<u64>)
        requires
            self.wf(),
        ensures
            r@ == project_value(self.moduli(), big_value(*a)),
    {
        let n = self.moduli_u64.len();
        let mut out: Vec<u64> = Vec::with_capacity(n);
        let mut i: usize = 0;
        while i < n
            invariant
                self.wf(),
                n == self.moduli_u64.len(),
                i <= n,
                out.len() == i,
                forall|j: int|
                    0 <= j < i ==> out@[j] == project_value(self.moduli_u64@, big_value(*a))[j],
            decreases n - i,
        {
            let rest = big_rem(a, &big_from_word(self.moduli_u64[i]));
            proof {
                lemma_mod_bound(big_value(*a) as int, self.moduli_u64@[i as int] as int);
            }
            let word = match big_to_word(&rest) {
                Some(x) => x,
                None => 0,
            };
            out.push(word);
            i += 1;
        }
        assert(out@ =~= project_value(self.moduli_u64@, big_value(*a)));
        out
    }
}

/// A positive rational factor, as a numerator over a denominator.
#[derive(Debug, Clone, PartialEq, Eq)]
pub struct ScalingFactor {
    numerator: BigUint,
    denominator: BigUint,
}

impl ScalingFactor {
    /// The numerator of the factor.
    pub closed spec fn num(&self) -> nat {
        big_value(self.numerator)
    }

    /// The denominator of the factor.
    pub closed spec fn den(&self) -> nat {
        big_value(self.denominator)
    }

    /// The denominator is not zero.
    pub open spec fn wf(&self) -> bool {
        self.den() > 0
    }

    /// The factor `numerator / denominator`; `None` where the denominator
    /// is zero.
    pub fn new(numerator: &BigUint, denominator: &BigUint) -> (r: Option<ScalingFactor>)
        ensures
            r is Some <==> big_value(*denominator) > 0,
            r matches Some(f) ==> f.wf() && f.num() == big_value(*numerator) && f.den()
                == big_value(*denominator),
    {
        if big_less(&big_from_word(0), denominator) {
            Some(
                ScalingFactor {
                    numerator: numerator.clone(),
                    denominator: denominator.clone(),
                },
            )
        } else {
            None
        }
    }

    /// The factor 1.
    pub fn one() -> (r: ScalingFactor)
        ensures
            r.wf(),
            r.num() == 1,
            r.den() == 1,
    {
        ScalingFactor { numerator: big_from_word(1), denominator: big_from_word(1) }
    }

    /// The numerator.
    pub fn numerator(&self) -> (r: &BigUint)
        ensures
            big_value(*r) == self.num(),
    {
        &self.numerator
    }

    /// The denominator.
    pub fn denominator(&self) -> (r: &BigUint)
        ensures
            big_value(*r) == self.den(),
    {
        &self.denominator
    }
}

} // verus!

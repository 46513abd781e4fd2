//! The choice of the moduli of a parameter set: the ciphertext moduli of
//! requested sizes, the extra moduli that a multiplication needs, and the
//! residues of the plaintext scaling constant.

use crate::errors::Error;
use crate::primes::{bit_count, bit_length, fresh_prime_below, lemma_bit_count, pick_prime};
use crate::rq::Context;
use crate::zq::{inv_mod, neg_mod};
use vstd::arithmetic::div_mod::*;
use vstd::arithmetic::power2::*;
use vstd::prelude::*;

verus! {

/// The ciphertext moduli for the sizes: for each size in turn, the largest
/// prime of that size that supports the transform of the degree and was not
/// chosen before.
pub open spec fn generated_moduli(sizes: Seq<usize>, degree: nat) -> Result<Seq<u64>, Error>
    decreases sizes.len(),
{
    if sizes.len() == 0 {
        Ok(Seq::<u64>::empty())
    } else {
        match generated_moduli(sizes.drop_last(), degree) {
            Err(e) => Err(e),
            Ok(chosen) => {
                let size = sizes.last();
                if size < 10 || size > 62 {
                    Err(Error::ModulusSize)
                } else {
                    match fresh_prime_below(
                        size as nat,
                        (2 * degree) as int,
                        chosen,
                        pow2(size as nat) as int,
                    ) {
                        None => Err(Error::PrimeGeneration),
                        Some(p) => Ok(chosen.push(p as u64)),
                    }
                }
            },
        }
    }
}

/// `count` more primes of 62 binary digits that support the transform of
/// the degree, each the largest that is neither among `moduli` nor chosen
/// before.
pub open spec fn extended_basis(moduli: Seq<u64>, degree: nat, count: nat) -> Option<Seq<u64>>
    decreases count,
{
    if count == 0 {
        Some(Seq::<u64>::empty())
    } else {
        match extended_basis(moduli, degree, (count - 1) as nat) {
            None => None,
            Some(chosen) => match fresh_prime_below(
                62,
                (2 * degree) as int,
                moduli + chosen,
                pow2(62) as int,
            ) {
                None => None,
                Some(p) => Some(chosen.push(p as u64)),
            },
        }
    }
}

/// The sum of the sizes.
pub open spec fn total_size(sizes: Seq<usize>) -> nat
    decreases sizes.len(),
{
    if sizes.len() == 0 {
        0
    } else {
        total_size(sizes.drop_last()) + sizes.last() as nat
    }
}

/// The number of binary digits of each modulus.
pub open spec fn sizes_of(moduli: Seq<u64>) -> Seq<usize> {
    Seq::new(moduli.len(), |i: int| bit_count(moduli[i] as nat) as usize)
}

/// The residue modulo `q` of `-1/t`, as Fermat's little theorem gives it.
pub open spec fn delta_rest(t: int, q: int) -> Option<int> {
    inv_mod(neg_mod(t % q, q), q)
}

/// `-1/t` has a residue modulo each modulus.
pub open spec fn delta_exists(t: int, moduli: Seq<u64>) -> bool {
    forall|i: int| 0 <= i < moduli.len() ==> (#[trigger] delta_rest(t, moduli[i] as int)) is Some
}

/// The residues of `-1/t` modulo each modulus.
pub open spec fn delta_rests(t: int, moduli: Seq<u64>) -> Seq<u64> {
    Seq::new(
        moduli.len(),
        |i: int|
            match delta_rest(t, moduli[i] as int) {
                Some(x) => x as u64,
                None => 0u64,
            },
    )
}

/// The sum of the sizes, each of which is at most 64.
pub fn sum_sizes(sizes: &Vec<usize>) -> (r: u128)
    requires
        forall|i: int| 0 <= i < sizes.len() ==> (#[trigger] sizes@[i]) <= 64,
    ensures
        r == total_size(sizes@),
        r <= 64 * sizes.len(),
{
    let mut sum: u128 = 0;
    let mut i: usize = 0;
    while i < sizes.len()
        invariant
            i <= sizes.len(),
            forall|i: int| 0 <= i < sizes.len() ==> (#[trigger] sizes@[i]) <= 64,
            sum == total_size(sizes@.take(i as int)),
            sum <= 64 * i,
        decreases sizes.len() - i,
    {
        proof {
            assert(sizes@.take(i + 1).drop_last() =~= sizes@.take(i as int));
        }
        sum = sum + sizes[i] as u128;
        i += 1;
    }
    proof {
        assert(sizes@.take(sizes.len() as int) =~= sizes@);
    }
    sum
}

/// The number of binary digits of each modulus.
pub fn moduli_sizes_of(moduli: &Vec<u64>) -> (r: Vec<usize>)
    requires
        forall|i: int| 0 <= i < moduli.len() ==> (#[trigger] moduli@[i]) > 0,
    ensures
        r@ == sizes_of(moduli@),
        forall|i: int| 0 <= i < r.len() ==> 1 <= (#[trigger] r@[i]) <= 64,
        forall|i: int|
            0 <= i < r.len() && moduli@[i] < 0x4000_0000_0000_0000 ==> (#[trigger] r@[i]) <= 62,
{
    let mut out: Vec<usize> = Vec::with_capacity(moduli.len());
    let mut i: usize = 0;
    while i < moduli.len()
        invariant
            i <= moduli.len(),
            out.len() == i,
            forall|i: int| 0 <= i < moduli.len() ==> (#[trigger] moduli@[i]) > 0,
            forall|j: int| 0 <= j < i ==> out@[j] == sizes_of(moduli@)[j],
            forall|j: int| 0 <= j < i ==> 1 <= (#[trigger] out@[j]) <= 64,
            forall|j: int|
                0 <= j < i && moduli@[j] < 0x4000_0000_0000_0000 ==> (#[trigger] out@[j]) <= 62,
        decreases moduli.len() - i,
    {
        let b = bit_length(moduli[i]);
        proof {
            lemma2_to64_rest();
            if b > 63 {
                lemma_pow2_strictly_increases(62, (b - 1) as nat);
            }
        }
        out.push(b);
        i += 1;
    }
    assert(out@ =~= sizes_of(moduli@));
    out
}

/// The ciphertext moduli for the sizes; fails where a size lies outside
/// `[10, 62]` or no further prime of a size exists.
pub fn generate_moduli(sizes: &Vec<usize>, degree: usize) -> (r: Result<Vec<u64>, Error>)
    requires
        0 < degree < 0x4000_0000_0000_0000,
    ensures
        match r {
            Ok(v) => generated_moduli(sizes@, degree as nat) == Ok::<Seq<u64>, Error>(v@)
                && sizes_of(v@) == sizes@,
            Err(e) => generated_moduli(sizes@, degree as nat) == Err::<Seq<u64>, Error>(e),
        },
{
    let mut moduli: Vec<u64> = Vec::with_capacity(sizes.len());
    let modulo: u64 = 2 * (degree as u64);
    let mut i: usize = 0;
    while i < sizes.len()
        invariant
            i <= sizes.len(),
            modulo == 2 * degree,
            modulo > 0,
            moduli.len() == i,
            generated_moduli(sizes@.take(i as int), degree as nat) == Ok::<Seq<u64>, Error>(
                moduli@,
            ),
            forall|j: int| 0 <= j < i ==> bit_count(#[trigger] moduli@[j] as nat) == sizes@[j],
        decreases sizes.len() - i,
    {
        let size = sizes[i];
        proof {
            assert(sizes@.take(i + 1).drop_last() =~= sizes@.take(i as int));
            lemma_generated_prefix_error(sizes@, degree as nat, i + 1);
        }
        if size > 62 || size < 10 {
            return Err(Error::ModulusSize);
        }
        match pick_prime(size, modulo, &moduli) {
            Some(p) => {
                proof {
                    lemma_bit_count(p as nat, size as nat);
                }
                moduli.push(p);
            },
            None => {
                return Err(Error::PrimeGeneration);
            },
        }
        i += 1;
    }
    proof {
        assert(sizes@.take(sizes.len() as int) =~= sizes@);
        assert(sizes_of(moduli@) =~= sizes@);
    }
    Ok(moduli)
}

/// A failure on a prefix of the sizes is the failure on all of them.
pub proof fn lemma_generated_prefix_error(sizes: Seq<usize>, degree: nat, k: int)
    requires
        0 <= k <= sizes.len(),
    ensures
        generated_moduli(sizes.take(k), degree) matches Err(e) ==> generated_moduli(sizes, degree)
            == Err::<Seq<u64>, Error>(e),
    decreases sizes.len(),
{
    if k < sizes.len() {
        assert(sizes.drop_last().take(k) =~= sizes.take(k));
        lemma_generated_prefix_error(sizes.drop_last(), degree, k);
    } else {
        assert(sizes.take(k) =~= sizes);
    }
}

/// `count` more primes of 62 binary digits for the multiplication; `None`
/// where there are not as many.
pub fn extend_basis(moduli: &Vec<u64>, degree: usize, count: usize) -> (r: Option<Vec<u64>>)
    requires
        0 < degree < 0x4000_0000_0000_0000,
        moduli.len() + count <= usize::MAX,
    ensures
        match r {
            Some(v) => extended_basis(moduli@, degree as nat, count as nat) == Some(v@),
            None => extended_basis(moduli@, degree as nat, count as nat) is None,
        },
{
    let modulo: u64 = 2 * (degree as u64);
    let mut chosen: Vec<u64> = Vec::with_capacity(count);
    let mut taken: Vec<u64> = moduli.clone();
    let mut i: usize = 0;
    while i < count
        invariant
            i <= count,
            modulo == 2 * degree,
            modulo > 0,
            chosen.len() == i,
            taken@ == moduli@ + chosen@,
            extended_basis(moduli@, degree as nat, i as nat) == Some(chosen@),
        decreases count - i,
    {
        proof {
            lemma_extended_prefix_none(moduli@, degree as nat, (i + 1) as nat, count as nat);
        }
        match pick_prime(62, modulo, &taken) {
            Some(p) => {
                chosen.push(p);
                taken.push(p);
                proof {
                    assert(taken@ =~= moduli@ + chosen@);
                }
            },
            None => {
                return None;
            },
        }
        i += 1;
    }
    Some(chosen)
}

/// Where fewer primes cannot be had, more cannot either.
pub proof fn lemma_extended_prefix_none(moduli: Seq<u64>, degree: nat, k: nat, count: nat)
    requires
        k <= count,
    ensures
        extended_basis(moduli, degree, k) is None ==> extended_basis(moduli, degree, count)
            is None,
    decreases count,
{
    if k < count {
        lemma_extended_prefix_none(moduli, degree, k, (count - 1) as nat);
    }
}

/// The residues of `-1/t` modulo each modulus of the ring; `None` where
/// `t` has no inverse modulo one of them.
pub fn compute_delta_rests(t: u64, ctx: &Context) -> (r: Option<Vec<u64>>)
    requires
        ctx.wf(),
    ensures
        r is Some <==> delta_exists(t as int, ctx.moduli()@),
        r matches Some(v) ==> v@ == delta_rests(t as int, ctx.moduli()@),
{
    let k = ctx.moduli().len();
    let mut out: Vec<u64> = Vec::with_capacity(k);
    let mut i: usize = 0;
    while i < k
        invariant
            ctx.wf(),
            k == ctx.moduli().len(),
            i <= k,
            out.len() == i,
            forall|j: int|
                0 <= j < i ==> (#[trigger] delta_rest(t as int, ctx.moduli()@[j] as int)) is Some,
            forall|j: int| 0 <= j < i ==> out@[j] == delta_rests(t as int, ctx.moduli()@)[j],
        decreases k - i,
    {
        let q = ctx.modulus_at(i);
        match q.inv(q.neg(q.reduce(t))) {
            Some(x) => {
                out.push(x);
            },
            None => {
                proof {
                    assert(delta_rest(t as int, ctx.moduli()@[i as int] as int) is None);
                }
                return None;
            },
        }
        i += 1;
    }
    proof {
        assert(out@ =~= delta_rests(t as int, ctx.moduli()@));
    }
    Some(out)
}

} // verus!

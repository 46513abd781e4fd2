//! Random material: what comes from the generators of `rand` and
//! `rand_chacha`, and the verified maps from raw words to coefficients.

use crate::primes::pow2_word;
use crate::zq::{is_reduced, word, Modulus};
use rand::{thread_rng, Rng, SeedableRng};
use rand_chacha::ChaCha8Rng;
use vstd::arithmetic::div_mod::*;
use vstd::arithmetic::power2::*;
use vstd::prelude::*;
use zeroize::Zeroize;

verus! {

/// The first `n` words that `ChaCha8Rng`, seeded with `seed`, fills a slice
/// of words with.
pub uninterp spec fn chacha8_words(seed: Seq<u8>, n: nat) -> Seq<u64>;

/// The first `n` bytes that `ChaCha8Rng`, seeded with `seed`, fills a slice
/// of bytes with.
pub uninterp spec fn chacha8_bytes(seed: Seq<u8>, n: nat) -> Seq<u8>;

/// `ChaCha8Rng::from_seed` followed by `Rng::fill` on a slice of `n` words.
/// The generator is a stream cipher whose output depends on the seed alone,
/// on every machine; the slice keeps its length.
#[verifier::external_body]
pub(crate) fn chacha8_fill_words(seed: &[u8; 32], n: usize) -> (r: Vec<u64>)
    ensures
        r@ == chacha8_words(seed@, n as nat),
        r.len() == n,
{
    let mut rng = ChaCha8Rng::from_seed(*seed);
    let mut out = vec![0u64; n];
    rng.fill(&mut out[..]);
    out
}

/// `ChaCha8Rng::from_seed` followed by `Rng::fill` on a slice of `n` bytes.
/// The output depends on the seed alone; the slice keeps its length.
#[verifier::external_body]
pub(crate) fn chacha8_fill_bytes(seed: &[u8; 32], n: usize) -> (r: Vec<u8>)
    ensures
        r@ == chacha8_bytes(seed@, n as nat),
        r.len() == n,
{
    let mut rng = ChaCha8Rng::from_seed(*seed);
    let mut out = vec![0u8; n];
    rng.fill(&mut out[..]);
    out
}

/// `rand::thread_rng` followed by `Rng::fill` on a slice of `n` words.
/// Nothing is known of the words but their number. The call panics where
/// the system gives no entropy.
#[verifier::external_body]
pub(crate) fn random_words(n: usize) -> (r: Vec<u64>)
    ensures
        r.len() == n,
{
    let mut out = vec![0u64; n];
    thread_rng().fill(&mut out[..]);
    out
}

/// `rand::thread_rng` followed by `Rng::fill` on a seed. Nothing is known
/// of the seed. The call panics where the system gives no entropy.
#[verifier::external_body]
pub(crate) fn fresh_seed() -> (r: [u8; 32])
{
    let mut seed = [0u8; 32];
    thread_rng().fill(&mut seed);
    seed
}

/// `Zeroize::zeroize` of a slice of words: every word becomes 0, and the
/// length stays.
#[verifier::external_body]
pub(crate) fn zeroize_words(v: &mut Vec<u64>)
    ensures
        final(v)@ == Seq::new(old(v)@.len(), |i: int| 0u64),
{
    v.as_mut_slice().zeroize()
}

/// The number of ones among the `n` lowest binary digits of `x`.
pub open spec fn ones_in(x: nat, n: nat) -> nat
    decreases n,
{
    if n == 0 {
        0
    } else {
        x % 2 + ones_in(x / 2, (n - 1) as nat)
    }
}

/// The centered binomial sample that a word gives for a variance: the ones
/// among its `2 * variance` lowest digits less the ones among the next
/// `2 * variance`.
pub open spec fn cbd_of(w: nat, variance: nat) -> int {
    ones_in(w, 2 * variance) - ones_in(w / pow2(2 * variance), 2 * variance)
}

/// The residue modulo `q` that two words give: the double word they form,
/// reduced.
pub open spec fn uniform_of(hi: u64, lo: u64, q: int) -> int {
    (hi as int * word() + lo as int) % q
}

/// The residues modulo `q` that `2n` words give, two words each.
pub open spec fn uniform_seq(words: Seq<u64>, n: nat, q: int) -> Seq<u64> {
    Seq::new(n, |i: int| uniform_of(words[2 * i], words[2 * i + 1], q) as u64)
}

/// The residues modulo `q` of the centered binomial samples of `n` words.
pub open spec fn cbd_seq(words: Seq<u64>, n: nat, variance: nat, q: int) -> Seq<u64> {
    Seq::new(n, |i: int| (cbd_of(words[i] as nat, variance) % q) as u64)
}

/// The ones among `n` digits are at most `n`.
pub proof fn lemma_ones_in_bound(x: nat, n: nat)
    ensures
        0 <= ones_in(x, n) <= n,
    decreases n,
{
    if n > 0 {
        lemma_ones_in_bound(x / 2, (n - 1) as nat);
    }
}

/// The number of ones among the `n` lowest binary digits of `x`.
pub fn count_low_ones(x: u64, n: usize) -> (r: u64)
    requires
        n <= 64,
    ensures
        r == ones_in(x as nat, n as nat),
        r <= n,
{
    let mut acc: u64 = 0;
    let mut cur: u64 = x;
    let mut i: usize = 0;
    while i < n
        invariant
            i <= n <= 64,
            acc <= i,
            acc + ones_in(cur as nat, (n - i) as nat) == ones_in(x as nat, n as nat),
        decreases n - i,
    {
        acc = acc + cur % 2;
        cur = cur / 2;
        i += 1;
    }
    acc
}

/// The centered binomial sample that `w` gives for the variance.
pub fn cbd_sample(w: u64, variance: usize) -> (r: i64)
    requires
        1 <= variance <= 16,
    ensures
        r == cbd_of(w as nat, variance as nat),
        -2 * variance <= r <= 2 * variance,
{
    let lo = count_low_ones(w, 2 * variance);
    let shift = pow2_word(2 * variance);
    proof {
        lemma_pow2_pos((2 * variance) as nat);
    }
    let hi = count_low_ones(w / shift, 2 * variance);
    (lo as i64) - (hi as i64)
}

/// The residue of the signed value `s` modulo `q`.
pub fn signed_residue(s: i64, q: &Modulus) -> (r: u64)
    requires
        q.wf(),
    ensures
        r == s as int % q@,
        r < q@,
{
    let p = q.modulus();
    if s >= 0 {
        (s as u64) % p
    } else {
        let a: u128 = (-(s as i128)) as u128;
        let m: u64 = (a % (p as u128)) as u64;
        proof {
            let ai = a as int;
            let pi = p as int;
            lemma_fundamental_div_mod(ai, pi);
            let k = ai / pi;
            if m == 0 {
                assert(-ai == (-k) * pi + 0) by (nonlinear_arith)
                    requires
                        ai == pi * k,
                ;
                lemma_fundamental_div_mod_converse(-ai, pi, -k, 0);
            } else {
                assert(-ai == (-k - 1) * pi + (pi - m)) by (nonlinear_arith)
                    requires
                        ai == pi * k + m,
                ;
                lemma_fundamental_div_mod_converse(-ai, pi, -k - 1, pi - m);
            }
        }
        if m == 0 {
            0
        } else {
            p - m
        }
    }
}

/// The residue modulo `q` that the two words `hi` and `lo` give.
pub fn uniform_residue(hi: u64, lo: u64, q: &Modulus) -> (r: u64)
    requires
        q.wf(),
    ensures
        r == uniform_of(hi, lo, q@),
        r < q@,
{
    proof {
        assert(hi as int * word() + lo as int <= u128::MAX) by (nonlinear_arith)
            requires
                hi <= u64::MAX,
                lo <= u64::MAX,
                word() == 0x1_0000_0000_0000_0000,
        ;
    }
    q.reduce_u128((hi as u128) * 0x1_0000_0000_0000_0000u128 + (lo as u128))
}

/// The residues modulo `q` that the `2n` first of `words` give.
pub fn uniform_row(words: &Vec<u64>, from: usize, n: usize, q: &Modulus) -> (r: Vec<u64>)
    requires
        q.wf(),
        from + 2 * n <= words.len(),
    ensures
        r@ == uniform_seq(words@.subrange(from as int, from + 2 * n), n as nat, q@),
        is_reduced(r@, q@),
{
    let mut out: Vec<u64> = Vec::with_capacity(n);
    let ghost part = words@.subrange(from as int, from + 2 * n);
    let mut i: usize = 0;
    while i < n
        invariant
            q.wf(),
            from + 2 * n <= words.len(),
            part == words@.subrange(from as int, from + 2 * n),
            i <= n,
            out.len() == i,
            forall|j: int| 0 <= j < i ==> out@[j] == uniform_seq(part, n as nat, q@)[j],
            forall|j: int| 0 <= j < i ==> (#[trigger] out@[j]) < q@,
        decreases n - i,
    {
        out.push(uniform_residue(words[from + 2 * i], words[from + 2 * i + 1], q));
        i += 1;
    }
    assert(out@ =~= uniform_seq(part, n as nat, q@));
    out
}

/// The residues modulo `q` of the centered binomial samples of `words`.
pub fn cbd_row(words: &Vec<u64>, variance: usize, q: &Modulus) -> (r: Vec<u64>)
    requires
        q.wf(),
        1 <= variance <= 16,
    ensures
        r@ == cbd_seq(words@, words.len() as nat, variance as nat, q@),
        is_reduced(r@, q@),
{
    let n = words.len();
    let mut out: Vec<u64> = Vec::with_capacity(n);
    let mut i: usize = 0;
    while i < n
        invariant
            q.wf(),
            1 <= variance <= 16,
            n == words.len(),
            i <= n,
            out.len() == i,
            forall|j: int|
                0 <= j < i ==> out@[j] == cbd_seq(words@, n as nat, variance as nat, q@)[j],
            forall|j: int| 0 <= j < i ==> (#[trigger] out@[j]) < q@,
        decreases n - i,
    {
        out.push(signed_residue(cbd_sample(words[i], variance), q));
        i += 1;
    }
    assert(out@ =~= cbd_seq(words@, n as nat, variance as nat, q@));
    out
}

/// `size` residues modulo `q`, from the generator of the thread: whatever
/// words it gives, two for each residue.
pub fn random_vec(q: &Modulus, size: usize) -> (r: Vec<u64>)
    requires
        q.wf(),
        2 * size <= usize::MAX,
    ensures
        r.len() == size,
        is_reduced(r@, q@),
{
    let words = random_words(2 * size);
    uniform_row(&words, 0, size, q)
}

} // verus!

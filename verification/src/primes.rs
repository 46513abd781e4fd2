//! Primes that support a number-theoretic transform.

use vstd::arithmetic::div_mod::*;
use vstd::arithmetic::power2::*;
use vstd::prelude::*;

verus! {

/// `p` is a prime number.
pub open spec fn is_prime(p: int) -> bool {
    p >= 2 && forall|d: int| 1 < d < p ==> #[trigger] (p % d) != 0
}

/// `n` is a power of two.
pub open spec fn is_power_of_two(n: nat) -> bool
    decreases n,
{
    n == 1 || (n > 1 && n % 2 == 0 && is_power_of_two(n / 2))
}

/// `p` is written with exactly `bits` binary digits.
pub open spec fn has_bits(p: int, bits: nat) -> bool {
    bits >= 1 && pow2((bits - 1) as nat) <= p < pow2(bits)
}

/// A prime `p` allows a transform of length `n` where `n` is a power of two
/// of at least 8 and `2n` divides `p - 1`.
pub open spec fn supports_ntt(p: int, n: nat) -> bool {
    n >= 8 && is_power_of_two(n) && p % (2 * n) as int == 1 && is_prime(p)
}

/// `p` is a prime of `bits` binary digits that is 1 modulo `modulo`.
pub open spec fn is_candidate(p: int, bits: nat, modulo: int) -> bool {
    is_prime(p) && p % modulo == 1 && has_bits(p, bits)
}

/// Primality of a word, by `num_bigint_dig::prime::probably_prime` with no
/// extra Miller-Rabin round. Its documentation states that the test is exact
/// for every input below `2^64`; the contract claims just that.
#[verifier::external_body]
pub(crate) fn word_is_prime(p: u64) -> (r: bool)
    ensures
        r == is_prime(p as int),
{
    num_bigint_dig::prime::probably_prime(&num_bigint_dig::BigUint::from(p), 0)
}

/// `2^k` as a word.
pub fn pow2_word(k: usize) -> (r: u64)
    requires
        k < 64,
    ensures
        r == pow2(k as nat),
{
    let mut r: u64 = 1;
    let mut i: usize = 0;
    proof {
        lemma2_to64();
    }
    while i < k
        invariant
            i <= k < 64,
            r == pow2(i as nat),
        decreases k - i,
    {
        proof {
            lemma_pow2_unfold((i + 1) as nat);
            lemma_pow2_strictly_increases((i + 1) as nat, 64);
            lemma2_to64_rest();
        }
        r = r * 2;
        i += 1;
    }
    r
}

/// The number of binary digits of `p`.
pub open spec fn bit_count(p: nat) -> nat
    decreases p,
{
    if p == 0 {
        0
    } else {
        1 + bit_count(p / 2)
    }
}

/// A number written with `bits` binary digits has `bits` binary digits.
pub proof fn lemma_bit_count(p: nat, bits: nat)
    requires
        has_bits(p as int, bits),
    ensures
        bit_count(p) == bits,
    decreases bits,
{
    lemma2_to64();
    if bits > 1 {
        lemma_pow2_unfold(bits);
        lemma_pow2_unfold((bits - 1) as nat);
        lemma_bit_count(p / 2, (bits - 1) as nat);
    } else {
        assert(bit_count(0) == 0);
        assert(bit_count(1) == 1 + bit_count(0));
    }
}

/// The number of binary digits of `p`.
pub fn bit_length(p: u64) -> (r: usize)
    requires
        p > 0,
    ensures
        has_bits(p as int, r as nat),
        r == bit_count(p as nat),
        1 <= r <= 64,
{
    let mut r: usize = 1;
    let mut hi: u64 = p / 2;
    proof {
        lemma2_to64();
    }
    while hi > 0
        invariant
            1 <= r <= 64,
            hi == p as nat / pow2(r as nat),
            r + bit_count(hi as nat) == bit_count(p as nat),
            pow2((r - 1) as nat) <= p,
            r == 64 ==> hi == 0,
        decreases hi,
    {
        proof {
            let k = r as nat;
            lemma_pow2_unfold(k + 1);
            lemma_pow2_pos(k);
            // p / 2^(k+1) == (p / 2^k) / 2
            lemma_div_denominator(p as int, pow2(k) as int, 2);
            // 2^k <= p since p / 2^k > 0
            lemma_fundamental_div_mod(p as int, pow2(k) as int);
            lemma_mod_bound(p as int, pow2(k) as int);
            assert(pow2(k) * hi >= pow2(k)) by (nonlinear_arith)
                requires
                    hi >= 1,
                    pow2(k) > 0,
            ;
            if r == 63 {
                lemma2_to64_rest();
            }
        }
        hi = hi / 2;
        r += 1;
    }
    proof {
        let k = r as nat;
        lemma_pow2_pos(k);
        lemma_fundamental_div_mod(p as int, pow2(k) as int);
        lemma_mod_bound(p as int, pow2(k) as int);
        assert(pow2(k) * 0 == 0);
    }
    r
}

/// Whether `n` is a power of two.
pub fn check_power_of_two(n: usize) -> (r: bool)
    ensures
        r == is_power_of_two(n as nat),
{
    if n == 0 {
        return false;
    }
    let mut m: usize = n;
    while m % 2 == 0
        invariant
            m > 0,
            is_power_of_two(m as nat) == is_power_of_two(n as nat),
        decreases m,
    {
        m = m / 2;
    }
    m == 1
}

/// Two values that are 1 modulo `m` differ by at least `m`.
pub proof fn lemma_congruent_gap(t: int, q: int, m: int)
    requires
        m > 1,
        t % m == 1,
        q % m == 1,
        t < q,
    ensures
        q >= t + m,
{
    lemma_fundamental_div_mod(t, m);
    lemma_fundamental_div_mod(q, m);
    let a = q / m;
    let b = t / m;
    assert(a > b) by (nonlinear_arith)
        requires
            q == m * a + 1,
            t == m * b + 1,
            t < q,
            m > 1,
    ;
    assert(m * a >= m * b + m) by (nonlinear_arith)
        requires
            a > b,
            m > 1,
    ;
}

/// The largest prime below `upper_bound` that has `num_bits` binary digits
/// and is 1 modulo `modulo`; `None` where there is none, or where `num_bits`
/// lies outside `[10, 62]`.
pub fn generate_prime(num_bits: usize, modulo: u64, upper_bound: u64) -> (r: Option<u64>)
    requires
        modulo > 0,
    ensures
        r matches Some(p) ==> 10 <= num_bits <= 62 && p < upper_bound && is_candidate(
            p as int,
            num_bits as nat,
            modulo as int,
        ) && forall|q: int|
            p < q < upper_bound ==> !is_candidate(q, num_bits as nat, modulo as int),
        r is None ==> !(10 <= num_bits <= 62) || forall|q: int|
            q < upper_bound ==> !is_candidate(q, num_bits as nat, modulo as int),
{
    if num_bits < 10 || num_bits > 62 {
        return None;
    }
    let lower = pow2_word(num_bits - 1);
    let upper = pow2_word(num_bits);
    let ghost bits = num_bits as nat;
    let ghost m = modulo as int;
    proof {
        lemma_pow2_unfold(bits);
        lemma_pow2_pos((bits - 1) as nat);
    }
    if modulo == 1 || upper_bound <= lower || upper_bound < 2 {
        proof {
            assert forall|q: int| q < upper_bound implies !is_candidate(q, bits, m) by {
                if modulo == 1 {
                    lemma_mod_is_zero_when(q);
                }
            }
        }
        return None;
    }
    let top: u64 = if upper_bound > upper {
        upper - 1
    } else {
        upper_bound - 1
    };
    proof {
        lemma_mod_decreases((top - 1) as nat, modulo as nat);
    }
    // The largest value up to `top` that is 1 modulo `modulo`.
    let mut t: u64 = top - ((top - 1) % modulo);
    proof {
        lemma_fundamental_div_mod((top - 1) as int, m);
        let k = (top - 1) as int / m;
        assert(t as int == k * m + 1) by (nonlinear_arith)
            requires
                (top - 1) as int == m * k + (top - 1) as int % m,
                t as int == top - (top - 1) as int % m,
        ;
        lemma_fundamental_div_mod_converse(t as int, m, k, 1);
        assert forall|q: int| t < q < upper_bound implies !is_candidate(q, bits, m) by {
            if q <= top && q % m == 1 {
                lemma_congruent_gap(t as int, q, m);
                lemma_mod_bound((top - 1) as int, m);
            }
        }
    }
    loop
        invariant
            10 <= num_bits <= 62,
            bits == num_bits as nat,
            m == modulo as int,
            m > 1,
            lower == pow2((bits - 1) as nat),
            upper == pow2(bits),
            t < upper_bound,
            t < upper,
            t as int % m == 1,
            forall|q: int| t < q < upper_bound ==> !is_candidate(q, bits, m),
        decreases t,
    {
        if t < lower {
            return None;
        }
        if word_is_prime(t) {
            return Some(t);
        }
        if t < modulo {
            proof {
                assert forall|q: int| q < upper_bound implies !is_candidate(q, bits, m) by {
                    if q < t && q % m == 1 && q >= 2 {
                        lemma_congruent_gap(q, t as int, m);
                    }
                }
            }
            return None;
        }
        proof {
            let t0 = t as int;
            lemma_mod_sub_multiples_vanish(t0, m);
            assert forall|q: int| t0 - m < q < upper_bound implies !is_candidate(q, bits, m) by {
                if q < t0 && q % m == 1 {
                    lemma_congruent_gap(q, t0, m);
                }
            }
        }
        t = t - modulo;
    }
}

/// Every integer is 0 modulo 1.
proof fn lemma_mod_is_zero_when(q: int)
    ensures
        q % 1 == 0,
{
    lemma_mod_bound(q, 1);
}


/// The largest prime below `bound` that has `bits` binary digits and is 1
/// modulo `modulo`, where there is one.
pub open spec fn largest_candidate_below(bits: nat, modulo: int, bound: int) -> Option<int>
    decreases bound,
{
    if bound <= 0 {
        None
    } else if is_candidate(bound - 1, bits, modulo) {
        Some(bound - 1)
    } else {
        largest_candidate_below(bits, modulo, bound - 1)
    }
}

/// The prime that `generate_prime` gives.
pub open spec fn prime_below(bits: nat, modulo: int, bound: int) -> Option<int> {
    if 10 <= bits <= 62 {
        largest_candidate_below(bits, modulo, bound)
    } else {
        None
    }
}

/// The largest prime below `bound` that has `bits` binary digits, is 1
/// modulo `modulo`, and is not among `taken`, where there is one.
pub open spec fn fresh_prime_below(bits: nat, modulo: int, taken: Seq<u64>, bound: int) -> Option<
    int,
>
    decreases bound,
{
    match prime_below(bits, modulo, bound) {
        None => None,
        Some(p) => if 0 <= p < bound && exists|i: int| 0 <= i < taken.len() && taken[i] == p {
            fresh_prime_below(bits, modulo, taken, p)
        } else {
            Some(p)
        },
    }
}

/// A candidate below the bound with none between it and the bound is the
/// largest below the bound.
pub proof fn lemma_largest_candidate_some(bits: nat, modulo: int, bound: int, p: int)
    requires
        0 <= p < bound,
        is_candidate(p, bits, modulo),
        forall|q: int| p < q < bound ==> !is_candidate(q, bits, modulo),
    ensures
        largest_candidate_below(bits, modulo, bound) == Some(p),
    decreases bound,
{
    if bound - 1 != p {
        lemma_largest_candidate_some(bits, modulo, bound - 1, p);
    }
}

/// Where no candidate lies below the bound, none is the largest.
pub proof fn lemma_largest_candidate_none(bits: nat, modulo: int, bound: int)
    requires
        forall|q: int| q < bound ==> !is_candidate(q, bits, modulo),
    ensures
        largest_candidate_below(bits, modulo, bound) is None,
    decreases bound,
{
    if bound > 0 {
        lemma_largest_candidate_none(bits, modulo, bound - 1);
    }
}

/// The largest candidate below a bound is a candidate below the bound.
pub proof fn lemma_largest_candidate_is_candidate(bits: nat, modulo: int, bound: int)
    ensures
        largest_candidate_below(bits, modulo, bound) matches Some(p) ==> 0 <= p < bound
            && is_candidate(p, bits, modulo),
    decreases bound,
{
    if bound > 0 && !is_candidate(bound - 1, bits, modulo) {
        lemma_largest_candidate_is_candidate(bits, modulo, bound - 1);
    }
}

/// Whether `x` is among `taken`.
pub fn contains_word(taken: &Vec<u64>, x: u64) -> (r: bool)
    ensures
        r == exists|i: int| 0 <= i < taken.len() && taken@[i] == x,
{
    let mut i: usize = 0;
    while i < taken.len()
        invariant
            i <= taken.len(),
            forall|j: int| 0 <= j < i ==> taken@[j] != x,
        decreases taken.len() - i,
    {
        if taken[i] == x {
            return true;
        }
        i += 1;
    }
    false
}

/// The largest prime of `num_bits` binary digits that is 1 modulo `modulo`
/// and is not among `taken`, where there is one.
pub fn pick_prime(num_bits: usize, modulo: u64, taken: &Vec<u64>) -> (r: Option<u64>)
    requires
        modulo > 0,
        num_bits < 64,
    ensures
        match r {
            Some(p) => fresh_prime_below(
                num_bits as nat,
                modulo as int,
                taken@,
                pow2(num_bits as nat) as int,
            ) == Some(p as int) && is_candidate(p as int, num_bits as nat, modulo as int)
                && !exists|i: int| 0 <= i < taken.len() && taken@[i] == p,
            None => fresh_prime_below(
                num_bits as nat,
                modulo as int,
                taken@,
                pow2(num_bits as nat) as int,
            ) is None,
        },
{
    let mut bound: u64 = pow2_word(num_bits);
    loop
        invariant
            modulo > 0,
            num_bits < 64,
            fresh_prime_below(
                num_bits as nat,
                modulo as int,
                taken@,
                pow2(num_bits as nat) as int,
            ) == fresh_prime_below(num_bits as nat, modulo as int, taken@, bound as int),
        decreases bound,
    {
        let found = generate_prime(num_bits, modulo, bound);
        proof {
            match found {
                Some(p) => {
                    lemma_largest_candidate_some(
                        num_bits as nat,
                        modulo as int,
                        bound as int,
                        p as int,
                    );
                },
                None => {
                    if 10 <= num_bits <= 62 {
                        lemma_largest_candidate_none(num_bits as nat, modulo as int, bound as int);
                    }
                },
            }
        }
        match found {
            None => {
                return None;
            },
            Some(p) => {
                if contains_word(taken, p) {
                    bound = p;
                } else {
                    return Some(p);
                }
            },
        }
    }
}

} // verus!

//! The order of the slots of the batched encoding: the walk of the powers
//! of 3 modulo `2n`, each read as a bit-reversed coefficient index.

use crate::primes::is_power_of_two;
use vstd::arithmetic::div_mod::*;
use vstd::arithmetic::mul::*;
use vstd::arithmetic::power::*;
use vstd::arithmetic::power2::*;
use vstd::prelude::*;

verus! {

/// The `bits` lowest binary digits of `x` in reverse order, after those of
/// `acc`.
pub open spec fn reverse_bits_onto(x: nat, bits: nat, acc: nat) -> nat
    decreases bits,
{
    if bits == 0 {
        acc
    } else {
        reverse_bits_onto(x / 2, (bits - 1) as nat, 2 * acc + x % 2)
    }
}

/// The `bits` lowest binary digits of `x` in reverse order.
pub open spec fn reverse_bits(x: nat, bits: nat) -> nat {
    reverse_bits_onto(x, bits, 0)
}

/// The logarithm of `n` in base 2, rounded down.
pub open spec fn log2_of(n: nat) -> nat
    decreases n,
{
    if n <= 1 {
        0
    } else {
        1 + log2_of(n / 2)
    }
}

/// The `i`-th power of 3 modulo `2n`.
pub open spec fn slot_position(i: nat, n: nat) -> nat {
    (pow(3, i) % (2 * n) as int) as nat
}

/// The coefficient index of each slot: the first half of the slots walks
/// the powers of 3, the second half their opposites.
pub open spec fn index_map(n: nat) -> Seq<usize> {
    Seq::new(
        n,
        |i: int|
            if i < n / 2 {
                reverse_bits(((slot_position(i as nat, n) - 1) / 2) as nat, log2_of(n)) as usize
            } else {
                reverse_bits(
                    ((2 * n - slot_position((i - n / 2) as nat, n) - 1) / 2) as nat,
                    log2_of(n),
                ) as usize
            },
    )
}

/// Reversed digits stay below the next power of two.
pub proof fn lemma_reverse_bits_bound(x: nat, bits: nat, acc: nat)
    ensures
        reverse_bits_onto(x, bits, acc) < (acc + 1) * pow2(bits),
    decreases bits,
{
    lemma_pow2_pos(bits);
    if bits == 0 {
        lemma2_to64();
    } else {
        let next = 2 * acc + x % 2;
        lemma_reverse_bits_bound(x / 2, (bits - 1) as nat, next);
        lemma_pow2_unfold(bits);
        let h = pow2((bits - 1) as nat);
        assert((next + 1) * h <= (acc + 1) * (2 * h)) by (nonlinear_arith)
            requires
                next + 1 <= 2 * acc + 2,
                h >= 0,
        ;
    }
}

/// A power of two is two to its logarithm.
pub proof fn lemma_log2_power_of_two(n: nat)
    requires
        is_power_of_two(n),
    ensures
        pow2(log2_of(n)) == n,
    decreases n,
{
    if n <= 1 {
        lemma2_to64();
    } else {
        lemma_log2_power_of_two(n / 2);
        lemma_pow2_unfold(log2_of(n));
    }
}

/// The logarithm of `n` in base 2, rounded down.
pub fn log2_floor(n: usize) -> (r: usize)
    ensures
        r == log2_of(n as nat),
        r < 64,
{
    let mut r: usize = 0;
    let mut m: usize = n;
    proof {
        lemma2_to64();
    }
    while m > 1
        invariant
            r + log2_of(m as nat) == log2_of(n as nat),
            m as nat * pow2(r as nat) <= n,
            r < 64,
        decreases m,
    {
        proof {
            lemma_pow2_unfold((r + 1) as nat);
            lemma_pow2_pos(r as nat);
            let pr = pow2(r as nat);
            assert((m / 2) as nat * (2 * pr) <= m as nat * pr) by (nonlinear_arith)
                requires
                    2 * (m / 2) <= m,
                    pr >= 0,
            ;
            if r == 63 {
                lemma2_to64_rest();
                assert(m as nat * pow2(63) >= 2 * pow2(63)) by (nonlinear_arith)
                    requires
                        m >= 2,
                ;
            }
        }
        m = m / 2;
        r += 1;
    }
    proof {
        lemma2_to64();
    }
    r
}

/// The `bits` lowest binary digits of `x` in reverse order.
pub fn reverse(x: usize, bits: usize) -> (r: usize)
    requires
        bits < 64,
        pow2(bits as nat) <= usize::MAX,
    ensures
        r == reverse_bits(x as nat, bits as nat),
        r < pow2(bits as nat),
{
    let mut acc: usize = 0;
    let mut cur: usize = x;
    let mut i: usize = 0;
    proof {
        lemma2_to64();
        lemma_reverse_bits_bound(x as nat, bits as nat, 0);
        assert((0 + 1) * pow2(bits as nat) == pow2(bits as nat)) by (nonlinear_arith);
    }
    while i < bits
        invariant
            i <= bits < 64,
            pow2(bits as nat) <= usize::MAX,
            acc < pow2(i as nat),
            reverse_bits_onto(cur as nat, (bits - i) as nat, acc as nat) == reverse_bits(
                x as nat,
                bits as nat,
            ),
        decreases bits - i,
    {
        proof {
            lemma_pow2_unfold((i + 1) as nat);
            if i + 1 < bits {
                lemma_pow2_strictly_increases((i + 1) as nat, bits as nat);
            }
        }
        acc = 2 * acc + cur % 2;
        cur = cur / 2;
        i += 1;
    }
    acc
}

/// The residue modulo an even number has the parity of the number.
pub proof fn lemma_parity_modulo_even(x: int, m: int)
    requires
        m > 0,
        m % 2 == 0,
    ensures
        (x % m) % 2 == x % 2,
{
    let h = m / 2;
    assert(m == 2 * h);
    lemma_mod_mod(x, 2, h);
}

/// The next power of 3 modulo `2n` is three times the last, reduced; it is
/// odd when the last is.
pub proof fn lemma_next_position(i: nat, n: nat)
    requires
        n >= 1,
    ensures
        slot_position(i + 1, n) == (slot_position(i, n) * 3) % (2 * n),
        slot_position(i, n) % 2 == 1 ==> slot_position(i + 1, n) % 2 == 1,
        slot_position(i + 1, n) < 2 * n,
{
    let m = (2 * n) as int;
    let pos = slot_position(i, n) as int;
    lemma_pow_adds(3, 1, i);
    lemma_pow1(3);
    lemma_mul_mod_noop_right(3, pow(3, i), m);
    lemma_mod_bound(pow(3, i), m);
    assert(3 * pos == pos * 3);
    lemma_parity_modulo_even(3 * pos, m);
    lemma_mod_bound(3 * pos, m);
}

/// The coefficient index of each slot of the batched encoding of the
/// degree `n`.
pub fn matrix_reps_index_map(n: usize) -> (r: Vec<usize>)
    requires
        n >= 2,
        is_power_of_two(n as nat),
        2 * n <= usize::MAX,
    ensures
        r@ == index_map(n as nat),
        forall|i: int| 0 <= i < r.len() ==> (#[trigger] r@[i]) < n,
{
    let bits = log2_floor(n);
    let row_size = n / 2;
    let m = 2 * n;
    proof {
        lemma_log2_power_of_two(n as nat);
        lemma_pow0(3);
        lemma_small_mod(1, m as nat);
    }
    let mut first: Vec<usize> = Vec::with_capacity(row_size);
    let mut second: Vec<usize> = Vec::with_capacity(row_size);
    let mut pos: usize = 1;
    let mut i: usize = 0;
    while i < row_size
        invariant
            n >= 2,
            is_power_of_two(n as nat),
            2 * n <= usize::MAX,
            m == 2 * n,
            row_size == n / 2,
            n == 2 * row_size,
            bits == log2_of(n as nat),
            bits < 64,
            pow2(bits as nat) == n,
            i <= row_size,
            first.len() == i,
            second.len() == i,
            pos == slot_position(i as nat, n as nat),
            pos < m,
            pos % 2 == 1,
            forall|j: int| 0 <= j < i ==> first@[j] == index_map(n as nat)[j],
            forall|j: int| 0 <= j < i ==> second@[j] == index_map(n as nat)[row_size + j],
            forall|j: int| 0 <= j < i ==> (#[trigger] first@[j]) < n,
            forall|j: int| 0 <= j < i ==> (#[trigger] second@[j]) < n,
        decreases row_size - i,
    {
        let index1 = (pos - 1) / 2;
        let index2 = (m - pos - 1) / 2;
        first.push(reverse(index1, bits));
        second.push(reverse(index2, bits));
        proof {
            lemma_next_position(i as nat, n as nat);
        }
        pos = (((pos as u128) * 3) % (m as u128)) as usize;
        i += 1;
    }
    let mut out = first;
    let mut j: usize = 0;
    while j < row_size
        invariant
            n == 2 * row_size,
            j <= row_size,
            second.len() == row_size,
            out.len() == row_size + j,
            forall|l: int| 0 <= l < row_size + j ==> out@[l] == index_map(n as nat)[l],
            forall|l: int| 0 <= l < row_size ==> second@[l] == index_map(n as nat)[row_size + l],
            forall|l: int| 0 <= l < row_size + j ==> (#[trigger] out@[l]) < n,
            forall|l: int| 0 <= l < row_size ==> (#[trigger] second@[l]) < n,
        decreases row_size - j,
    {
        out.push(second[j]);
        j += 1;
    }
    assert(out@ =~= index_map(n as nat));
    out
}

/// No two slots have the same coefficient index.
pub open spec fn injective(map: Seq<usize>) -> bool {
    forall|i: int, j: int| 0 <= i < j < map.len() ==> map[i] != map[j]
}

} // verus!

//! No two slots of the batched encoding have the same coefficient index:
//! the powers of 3 below a fourth of a power of two `m` are distinct
//! modulo `m`, and none is the opposite of another.

use crate::congruence::lemma_congruent_difference;
use crate::ntt::{lemma_power_of_two_halves, primitive_root};
use crate::parameters::batching_supported;
use crate::primes::{is_power_of_two, supports_ntt};
use crate::slots::{
    index_map, injective, lemma_log2_power_of_two, lemma_parity_modulo_even,
    lemma_reverse_bits_bound, log2_of, reverse_bits, reverse_bits_onto, slot_position,
};
use vstd::arithmetic::div_mod::*;
use vstd::arithmetic::power::*;
use vstd::arithmetic::power2::*;
use vstd::prelude::*;

verus! {

/// A power of 3 is 1 modulo 8 where the exponent is even, and 3 where it
/// is odd.
pub proof fn lemma_power_of_three_modulo_eight(d: nat)
    ensures
        pow(3, d) % 8 == (if d % 2 == 0 {
            1int
        } else {
            3int
        }),
        pow(3, d) >= 1,
    decreases d,
{
    if d == 0 {
        lemma_pow0(3);
    } else {
        let e = (d - 1) as nat;
        lemma_power_of_three_modulo_eight(e);
        lemma_pow_adds(3, 1, e);
        lemma_pow1(3);
        let x = pow(3, e);
        assert(pow(3, d) == 3 * x);
        lemma_mul_mod_noop_right(3, x, 8);
    }
}

/// A power of two that divides the product of a number and an odd number
/// divides the number.
pub proof fn lemma_odd_factor(h: nat, a: int, c: int)
    requires
        is_power_of_two(h),
        c % 2 == 1,
        (a * c) % (h as int) == 0,
    ensures
        a % (h as int) == 0,
    decreases h,
{
    if h >= 2 {
        lemma_power_of_two_halves(h);
        let g = (h / 2) as int;
        let hi = h as int;
        let t = (a * c) / hi;
        lemma_fundamental_div_mod(a * c, hi);
        assert(a * c == hi * t);
        // the number is even
        lemma_mul_mod_noop_general(a, c, 2);
        assert(hi * t == 2 * (g * t)) by (nonlinear_arith)
            requires
                hi == 2 * g,
        ;
        assert((a * c) % 2 == 0);
        if a % 2 == 1 {
            assert((a % 2) * (c % 2) == 1);
            assert(false);
        }
        let half = a / 2;
        assert(a == 2 * half);
        assert(half * c == g * t) by (nonlinear_arith)
            requires
                a * c == 2 * (g * t),
                a == 2 * half,
        ;
        lemma_mod_multiples_basic(t, g);
        assert(g * t == t * g) by (nonlinear_arith);
        assert((half * c) % g == 0);
        lemma_odd_factor((h / 2) as nat, half, c);
        let u = half / g;
        lemma_fundamental_div_mod(half, g);
        assert(half == g * u);
        assert(a == u * hi) by (nonlinear_arith)
            requires
                a == 2 * half,
                half == g * u,
                hi == 2 * g,
        ;
        lemma_mod_multiples_basic(u, hi);
    } else {
        assert(h == 1);
    }
}

/// A power of two of at least 8 is a multiple of 8, and one of at least 16
/// a multiple of 16.
pub proof fn lemma_power_of_two_multiples(m: nat)
    requires
        is_power_of_two(m),
        m >= 8,
    ensures
        m % 8 == 0,
        m >= 16 ==> m % 16 == 0,
        is_power_of_two(m / 2),
        is_power_of_two(m / 4),
        m / 4 >= 2,
        (m / 4) % 2 == 0,
        m == 4 * (m / 4),
{
    reveal_with_fuel(is_power_of_two, 6);
}

/// Where a power of two `m` of at least 8 divides a power of 3 less one,
/// a fourth of `m` divides the exponent.
pub proof fn lemma_order_of_three(m: nat, d: nat)
    requires
        is_power_of_two(m),
        m >= 8,
        (pow(3, d) - 1) % (m as int) == 0,
    ensures
        d % (m / 4) == 0,
    decreases m,
{
    let mi = m as int;
    let x = pow(3, d);
    lemma_power_of_three_modulo_eight(d);
    lemma_power_of_two_multiples(m);
    // m divides x - 1, and 8 divides m
    lemma_mod_mod(x - 1, 8, mi / 8);
    assert(mi == 8 * (mi / 8));
    assert((x - 1) % 8 == 0);
    assert(d % 2 == 0);
    if m >= 16 {
        let h = (m / 2) as nat;
        let hi = h as int;
        assert(mi == 2 * hi);
        lemma_power_of_two_multiples(h);
        let e = d / 2;
        assert(d == e + e);
        lemma_pow_adds(3, e, e);
        let y = pow(3, e);
        lemma_power_of_three_modulo_eight(e);
        assert(x == y * y);
        assert(x - 1 == (y - 1) * (y + 1)) by (nonlinear_arith)
            requires
                x == y * y,
        ;
        lemma_mod_mod(x - 1, 16, mi / 16);
        assert(mi == 16 * (mi / 16));
        assert((x - 1) % 16 == 0);
        if e % 2 == 1 {
            let a = y / 8;
            assert(y == 8 * a + 3);
            assert((y - 1) * (y + 1) == 16 * (4 * (a * a) + 3 * a) + 8) by (nonlinear_arith)
                requires
                    y == 8 * a + 3,
            ;
            assert(false);
        }
        let a = y / 8;
        assert(y == 8 * a + 1);
        let c = 4 * a + 1;
        assert(y + 1 == 2 * c);
        let t = (x - 1) / mi;
        lemma_fundamental_div_mod(x - 1, mi);
        assert(x - 1 == mi * t);
        assert((y - 1) * c == hi * t) by (nonlinear_arith)
            requires
                (y - 1) * (2 * c) == (2 * hi) * t,
        ;
        lemma_mod_multiples_basic(t, hi);
        assert(hi * t == t * hi) by (nonlinear_arith);
        lemma_odd_factor(h, y - 1, c);
        lemma_order_of_three(h, e);
        let q = (h / 4) as int;
        let s = (e as int) / q;
        lemma_fundamental_div_mod(e as int, q);
        assert(e == q * s);
        assert((m / 4) as int == 2 * q);
        assert(d == s * (2 * q)) by (nonlinear_arith)
            requires
                d == e + e,
                e == q * s,
        ;
        lemma_mod_multiples_basic(s, 2 * q);
    }
}

/// Powers of 3 whose exponents differ by less than a fourth of `2n` are
/// distinct modulo `2n`.
pub proof fn lemma_positions_distinct(n: nat, a: nat, b: nat)
    requires
        is_power_of_two(n),
        n >= 4,
        a < b,
        b - a < n / 2,
    ensures
        slot_position(a, n) != slot_position(b, n),
{
    let m = 2 * n;
    let mi = m as int;
    assert(is_power_of_two(m)) by {
        assert(m / 2 == n);
    }
    if slot_position(a, n) == slot_position(b, n) {
        let d = (b - a) as nat;
        let x = pow(3, a);
        let y = pow(3, d);
        lemma_pow_adds(3, a, d);
        lemma_power_of_three_modulo_eight(a);
        lemma_power_of_three_modulo_eight(d);
        lemma_mod_bound(pow(3, a), mi);
        lemma_mod_bound(pow(3, b), mi);
        assert(pow(3, b) % mi == x % mi);
        lemma_congruent_difference(pow(3, b), x, mi);
        assert((y - 1) * x == pow(3, b) - x) by (nonlinear_arith)
            requires
                pow(3, b) == x * y,
        ;
        lemma_odd_factor(m, y - 1, x);
        lemma_order_of_three(m, d);
        lemma_power_of_two_multiples(m);
        lemma_small_mod(d, (m / 4) as nat);
    }
}

/// No power of 3 is the opposite of another modulo `2n`.
pub proof fn lemma_positions_not_opposite(n: nat, a: nat, b: nat)
    requires
        is_power_of_two(n),
        n >= 4,
    ensures
        slot_position(a, n) + slot_position(b, n) != 2 * n,
        slot_position(a, n) % 2 == 1,
        1 <= slot_position(a, n) < 2 * n,
{
    let m = 2 * n;
    let mi = m as int;
    assert(is_power_of_two(m)) by {
        assert(m / 2 == n);
    }
    lemma_power_of_two_multiples(m);
    lemma_power_of_three_modulo_eight(a);
    lemma_power_of_three_modulo_eight(b);
    lemma_mod_bound(pow(3, a), mi);
    lemma_mod_bound(pow(3, b), mi);
    assert(mi == 8 * (mi / 8));
    lemma_mod_mod(pow(3, a), 8, mi / 8);
    lemma_mod_mod(pow(3, b), 8, mi / 8);
    lemma_parity_modulo_even(pow(3, a), mi);
}

/// Numbers below `2^bits` with the same reversed digits are the same.
pub proof fn lemma_reverse_injective(x: nat, y: nat, bits: nat, ax: nat, ay: nat)
    requires
        x < pow2(bits),
        y < pow2(bits),
        reverse_bits_onto(x, bits, ax) == reverse_bits_onto(y, bits, ay),
    ensures
        x == y,
        ax == ay,
    decreases bits,
{
    if bits == 0 {
        lemma2_to64();
    } else {
        lemma_pow2_unfold(bits);
        lemma_reverse_injective(
            x / 2,
            y / 2,
            (bits - 1) as nat,
            2 * ax + x % 2,
            2 * ay + y % 2,
        );
    }
}

/// No two slots of the batched encoding of a degree that is a power of
/// two, 8 at least, have the same coefficient index.
pub proof fn lemma_index_map_injective(n: nat)
    requires
        is_power_of_two(n),
        n >= 8,
        n <= usize::MAX,
    ensures
        injective(index_map(n)),
{
    let map = index_map(n);
    let bits = log2_of(n);
    let h = n / 2;
    lemma_log2_power_of_two(n);
    lemma_power_of_two_halves(n);
    assert forall|i: int, j: int| 0 <= i < j < map.len() implies map[i] != map[j] by {
        let pi = if i < h {
            slot_position(i as nat, n) as int
        } else {
            2 * n - slot_position((i - h) as nat, n)
        };
        let pj = if j < h {
            slot_position(j as nat, n) as int
        } else {
            2 * n - slot_position((j - h) as nat, n)
        };
        let ia = if i < h {
            i as nat
        } else {
            (i - h) as nat
        };
        let ja = if j < h {
            j as nat
        } else {
            (j - h) as nat
        };
        lemma_positions_not_opposite(n, ia, ja);
        lemma_positions_not_opposite(n, ja, ia);
        let vi = ((pi - 1) / 2) as nat;
        let vj = ((pj - 1) / 2) as nat;
        assert(2 * vi + 1 == pi);
        assert(2 * vj + 1 == pj);
        assert(vi < n && vj < n);
        lemma_reverse_bits_bound(vi, bits, 0);
        lemma_reverse_bits_bound(vj, bits, 0);
        let ri = reverse_bits(vi, bits);
        let rj = reverse_bits(vj, bits);
        let full = pow2(bits);
        assert(full == n);
        assert((0 + 1) * full == full) by (nonlinear_arith);
        assert(ri < n && rj < n);
        assert(map[i] == ri);
        assert(map[j] == rj);
        if map[i] == map[j] {
            assert(ri == rj);
            lemma_reverse_injective(vi, vj, bits, 0, 0);
            assert(pi == pj);
            if i < h && j >= h {
                assert(false);
            } else {
                lemma_positions_distinct(n, ia, ja);
            }
        }
    }
}

/// Whether the batched encoding is available depends on the plaintext
/// modulus alone, for a degree that is a power of two, 8 at least.
pub proof fn lemma_batching_by_modulus(t: u64, n: nat)
    requires
        is_power_of_two(n),
        n >= 8,
        n <= usize::MAX,
    ensures
        batching_supported(t, n) == (supports_ntt(t as int, n) && primitive_root(t as int, n)
            is Some),
{
    lemma_index_map_injective(n);
}

} // verus!

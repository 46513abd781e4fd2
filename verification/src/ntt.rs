//! The negacyclic number-theoretic transform modulo a prime.
//!
//! The forward transform splits a sequence in two halves by one layer of
//! butterflies and transforms each half in turn, so that its output is in
//! bit-reversed order. The backward transform undoes it layer by layer, and
//! halves at every layer.

use crate::primes::{check_power_of_two, is_power_of_two, supports_ntt, word_is_prime};
use crate::zq::{
    add_mod, is_reduced, lemma_mul_congruent, lemma_pow_mod_adds, lemma_shoup_bound, mul_mod,
    pow_mod, shoup_of, shoup_seq, sub_mod, Modulus,
};
use vstd::arithmetic::div_mod::*;
use vstd::arithmetic::mul::*;
use vstd::arithmetic::power::*;
use vstd::prelude::*;

verus! {

/// The exponent of the root of unity used at node `idx` of the butterfly
/// tree of a transform of length `n`: the bit reversal of `idx`.
pub open spec fn twiddle_exponent(idx: nat, n: nat) -> nat
    decreases idx,
{
    if idx <= 1 {
        n / 2
    } else {
        twiddle_exponent(idx / 2, n) / 2 + if idx % 2 == 1 {
            n / 2
        } else {
            0
        }
    }
}

/// The element of order dividing `2n` that `g` gives modulo `p`.
pub open spec fn root_of(g: int, n: nat, p: int) -> int {
    pow_mod(g, ((p - 1) / (2 * n) as int) as nat, p)
}

/// `x^n == -1 (mod p)`: `x` is a primitive `2n`-th root of unity for `n` a
/// power of two.
pub open spec fn is_root(x: int, n: nat, p: int) -> bool {
    pow_mod(x, n, p) == p - 1
}

/// The least `g >= from` below `p` that gives a primitive `2n`-th root of
/// unity, or `p` where there is none.
pub open spec fn least_generator(p: int, n: nat, from: int) -> int
    decreases p - from,
{
    if from >= p {
        p
    } else if is_root(root_of(from, n, p), n, p) {
        from
    } else {
        least_generator(p, n, from + 1)
    }
}

/// The primitive `2n`-th root of unity modulo `p` that the transform uses.
pub open spec fn primitive_root(p: int, n: nat) -> Option<int> {
    let g = least_generator(p, n, 2);
    if g < p {
        Some(root_of(g, n, p))
    } else {
        None
    }
}

/// The root of `primitive_root`, or 0 where there is none.
pub open spec fn psi_of(p: int, n: nat) -> int {
    match primitive_root(p, n) {
        Some(x) => x,
        None => 0,
    }
}

/// The inverse of 2 modulo an odd `p`.
pub open spec fn half_of(p: int) -> int {
    (p + 1) / 2
}

/// The roots of unity of the forward transform, by node of the tree.
pub open spec fn twiddles(p: int, n: nat) -> Seq<u64> {
    Seq::new(n, |i: int| pow_mod(psi_of(p, n), twiddle_exponent(i as nat, n), p) as u64)
}

/// The inverses of the roots of unity, each already halved, by node.
pub open spec fn inv_twiddles(p: int, n: nat) -> Seq<u64> {
    Seq::new(
        n,
        |i: int|
            mul_mod(
                pow_mod(psi_of(p, n), (2 * n - twiddle_exponent(i as nat, n)) as nat, p),
                half_of(p),
                p,
            ) as u64,
    )
}

/// The lower half of one layer of forward butterflies.
pub open spec fn ntt_low(a: Seq<u64>, w: int, p: int) -> Seq<u64> {
    let h = (a.len() / 2) as int;
    Seq::new(
        h as nat,
        |j: int| add_mod(a[j] as int, mul_mod(a[j + h] as int, w, p), p) as u64,
    )
}

/// The upper half of one layer of forward butterflies.
pub open spec fn ntt_high(a: Seq<u64>, w: int, p: int) -> Seq<u64> {
    let h = (a.len() / 2) as int;
    Seq::new(
        h as nat,
        |j: int| sub_mod(a[j] as int, mul_mod(a[j + h] as int, w, p), p) as u64,
    )
}

/// The forward transform of `a` at node `idx` with the roots `tw`.
pub open spec fn ntt(a: Seq<u64>, tw: Seq<u64>, idx: int, p: int) -> Seq<u64>
    decreases a.len(),
{
    if a.len() < 2 {
        a
    } else {
        ntt(ntt_low(a, tw[idx] as int, p), tw, 2 * idx, p) + ntt(
            ntt_high(a, tw[idx] as int, p),
            tw,
            2 * idx + 1,
            p,
        )
    }
}

/// One layer of backward butterflies on the two halves `x` and `y`.
pub open spec fn intt_merge(x: Seq<u64>, y: Seq<u64>, wi: int, p: int) -> Seq<u64> {
    let h = x.len() as int;
    Seq::new(
        (2 * h) as nat,
        |j: int|
            if j < h {
                mul_mod(add_mod(x[j] as int, y[j] as int, p), half_of(p), p) as u64
            } else {
                mul_mod(sub_mod(x[j - h] as int, y[j - h] as int, p), wi, p) as u64
            },
    )
}

/// The backward transform of `b` at node `idx` with the halved inverse
/// roots `twi`.
pub open spec fn intt(b: Seq<u64>, twi: Seq<u64>, idx: int, p: int) -> Seq<u64>
    decreases b.len(),
{
    if b.len() < 2 {
        b
    } else {
        let h = (b.len() / 2) as int;
        intt_merge(
            intt(b.subrange(0, h), twi, 2 * idx, p),
            intt(b.subrange(h, 2 * h), twi, 2 * idx + 1, p),
            twi[idx] as int,
            p,
        )
    }
}

/// The forward transform of length `n` modulo `p`.
pub open spec fn forward_transform(a: Seq<u64>, p: int, n: nat) -> Seq<u64> {
    ntt(a, twiddles(p, n), 1, p)
}

/// The backward transform of length `n` modulo `p`.
pub open spec fn backward_transform(a: Seq<u64>, p: int, n: nat) -> Seq<u64> {
    intt(a, inv_twiddles(p, n), 1, p)
}

/// `wi` is half the inverse of `w`.
pub open spec fn halved_inverse(w: int, wi: int, p: int) -> bool {
    0 <= w < p && 0 <= wi < p && mul_mod(mul_mod(w, wi, p), 2, p) == 1
}

/// At every node from 1 on, `twi` holds half the inverse of `tw`.
pub open spec fn inverse_tables(tw: Seq<u64>, twi: Seq<u64>, p: int) -> bool {
    tw.len() == twi.len() && forall|i: int|
        1 <= i < tw.len() ==> halved_inverse(#[trigger] tw[i] as int, twi[i] as int, p)
}

/// The exponent at every node is below `n`.
pub proof fn lemma_twiddle_exponent_bound(idx: nat, n: nat)
    requires
        n >= 1,
    ensures
        twiddle_exponent(idx, n) < n,
    decreases idx,
{
    if idx > 1 {
        lemma_twiddle_exponent_bound(idx / 2, n);
    }
}

/// A power of two above 1 is even, and its half is a power of two.
pub proof fn lemma_power_of_two_halves(n: nat)
    requires
        is_power_of_two(n),
        n >= 2,
    ensures
        n % 2 == 0,
        is_power_of_two(n / 2),
        n == 2 * (n / 2),
{
}

/// The forward transform keeps the length of a sequence whose length is a
/// power of two, and gives residues.
pub proof fn lemma_ntt_shape(a: Seq<u64>, tw: Seq<u64>, idx: int, p: int)
    requires
        is_power_of_two(a.len()),
        is_reduced(a, p),
        2 <= p < 0x4000_0000_0000_0000,
    ensures
        ntt(a, tw, idx, p).len() == a.len(),
        is_reduced(ntt(a, tw, idx, p), p),
    decreases a.len(),
{
    if a.len() >= 2 {
        lemma_power_of_two_halves(a.len());
        let w = tw[idx] as int;
        let lo = ntt_low(a, w, p);
        let hi = ntt_high(a, w, p);
        let h = (a.len() / 2) as int;
        assert forall|j: int| 0 <= j < h implies (#[trigger] lo[j]) < p && (#[trigger] hi[j])
            < p by {
            lemma_mod_bound(a[j] as int + mul_mod(a[j + h] as int, w, p), p);
            lemma_mod_bound(a[j] as int - mul_mod(a[j + h] as int, w, p), p);
        }
        lemma_ntt_shape(lo, tw, 2 * idx, p);
        lemma_ntt_shape(hi, tw, 2 * idx + 1, p);
    }
}

/// The backward transform keeps the length of a sequence whose length is a
/// power of two, and gives residues.
pub proof fn lemma_intt_shape(b: Seq<u64>, twi: Seq<u64>, idx: int, p: int)
    requires
        is_power_of_two(b.len()),
        is_reduced(b, p),
        2 <= p < 0x4000_0000_0000_0000,
    ensures
        intt(b, twi, idx, p).len() == b.len(),
        is_reduced(intt(b, twi, idx, p), p),
    decreases b.len(),
{
    if b.len() >= 2 {
        lemma_power_of_two_halves(b.len());
        let h = (b.len() / 2) as int;
        let b0 = b.subrange(0, h);
        let b1 = b.subrange(h, 2 * h);
        lemma_intt_shape(b0, twi, 2 * idx, p);
        lemma_intt_shape(b1, twi, 2 * idx + 1, p);
        let x = intt(b0, twi, 2 * idx, p);
        let y = intt(b1, twi, 2 * idx + 1, p);
        let r = intt_merge(x, y, twi[idx] as int, p);
        assert forall|j: int| 0 <= j < r.len() implies (#[trigger] r[j]) < p by {
            if j < h {
                lemma_mod_bound(add_mod(x[j] as int, y[j] as int, p) * half_of(p), p);
            } else {
                lemma_mod_bound(
                    sub_mod(x[j - h] as int, y[j - h] as int, p) * (twi[idx] as int),
                    p,
                );
            }
        }
    }
}

/// One backward butterfly undoes one forward butterfly.
pub proof fn lemma_butterfly_inverse(u: int, v: int, w: int, wi: int, p: int)
    requires
        2 <= p,
        p % 2 == 1,
        0 <= u < p,
        0 <= v < p,
        halved_inverse(w, wi, p),
    ensures
        mul_mod(
            add_mod(add_mod(u, mul_mod(v, w, p), p), sub_mod(u, mul_mod(v, w, p), p), p),
            half_of(p),
            p,
        ) == u,
        mul_mod(
            sub_mod(add_mod(u, mul_mod(v, w, p), p), sub_mod(u, mul_mod(v, w, p), p), p),
            wi,
            p,
        ) == v,
{
    let t = mul_mod(v, w, p);
    let x = add_mod(u, t, p);
    let y = sub_mod(u, t, p);
    let h = half_of(p);
    // x + y == 2u (mod p)
    lemma_add_mod_noop(u + t, u - t, p);
    assert((x + y) % p == (2 * u) % p);
    // 2h == p + 1
    assert(2 * h == p + 1);
    assert(((x + y) % p * h) % p == (2 * u * h) % p) by {
        lemma_mul_mod_noop_left(x + y, h, p);
        lemma_mul_mod_noop_left(2 * u, h, p);
    }
    assert(2 * u * h == u * p + u) by (nonlinear_arith)
        requires
            2 * h == p + 1,
    ;
    assert((u * p + u) % p == u) by {
        lemma_mod_multiples_vanish(u, u, p);
        lemma_small_mod(u as nat, p as nat);
    }
    // x - y == 2t (mod p)
    lemma_sub_mod_noop(u + t, u - t, p);
    assert((x - y) % p == (2 * t) % p);
    // 2 t wi == 2 v w wi == v (mod p)
    let one = mul_mod(mul_mod(w, wi, p), 2, p);
    assert(((x - y) % p * wi) % p == (2 * t * wi) % p) by {
        lemma_mul_mod_noop_left(x - y, wi, p);
        lemma_mul_mod_noop_left(2 * t, wi, p);
    }
    assert((2 * t * wi) % p == (2 * (v * w) * wi) % p) by {
        lemma_mod_twice(v * w, p);
        lemma_mul_congruent(t, 2 * wi, v * w, 2 * wi, p);
        assert(2 * t * wi == t * (2 * wi)) by (nonlinear_arith);
        assert(2 * (v * w) * wi == (v * w) * (2 * wi)) by (nonlinear_arith);
    }
    assert(2 * (v * w) * wi == v * ((w * wi) * 2)) by (nonlinear_arith);
    assert((v * ((w * wi) * 2)) % p == (v * 1) % p) by {
        lemma_mul_mod_noop_left(w * wi, 2, p);
        lemma_mul_mod_noop_right(v, (w * wi) * 2, p);
    }
    lemma_small_mod(v as nat, p as nat);
}

/// The backward transform undoes the forward transform, node by node,
/// where the two tables hold inverse roots.
pub proof fn lemma_intt_ntt(a: Seq<u64>, tw: Seq<u64>, twi: Seq<u64>, idx: int, p: int)
    requires
        2 <= p < 0x4000_0000_0000_0000,
        p % 2 == 1,
        is_power_of_two(a.len()),
        is_reduced(a, p),
        idx >= 1,
        (idx + 1) * a.len() <= 2 * tw.len(),
        inverse_tables(tw, twi, p),
    ensures
        intt(ntt(a, tw, idx, p), twi, idx, p) == a,
    decreases a.len(),
{
    if a.len() >= 2 {
        lemma_power_of_two_halves(a.len());
        let h = (a.len() / 2) as int;
        let w = tw[idx] as int;
        let wi = twi[idx] as int;
        let lo = ntt_low(a, w, p);
        let hi = ntt_high(a, w, p);
        assert(idx < tw.len()) by (nonlinear_arith)
            requires
                (idx + 1) * a.len() <= 2 * tw.len(),
                a.len() >= 2,
                idx >= 1,
        ;
        assert((2 * idx + 1) * h <= 2 * tw.len() && (2 * idx + 2) * h <= 2 * tw.len())
            by (nonlinear_arith)
            requires
                (idx + 1) * a.len() <= 2 * tw.len(),
                a.len() == 2 * h,
                h >= 1,
                idx >= 1,
        ;
        assert forall|j: int| 0 <= j < h implies (#[trigger] lo[j]) < p && (#[trigger] hi[j])
            < p by {
            lemma_mod_bound(a[j] as int + mul_mod(a[j + h] as int, w, p), p);
            lemma_mod_bound(a[j] as int - mul_mod(a[j + h] as int, w, p), p);
        }
        lemma_ntt_shape(lo, tw, 2 * idx, p);
        lemma_ntt_shape(hi, tw, 2 * idx + 1, p);
        let big_lo = ntt(lo, tw, 2 * idx, p);
        let big_hi = ntt(hi, tw, 2 * idx + 1, p);
        let b = big_lo + big_hi;
        assert(b.subrange(0, h) =~= big_lo);
        assert(b.subrange(h, 2 * h) =~= big_hi);
        lemma_intt_ntt(lo, tw, twi, 2 * idx, p);
        lemma_intt_ntt(hi, tw, twi, 2 * idx + 1, p);
        let r = intt_merge(lo, hi, wi, p);
        assert(intt(b, twi, idx, p) == r);
        assert forall|j: int| 0 <= j < a.len() implies r[j] == a[j] by {
            if j < h {
                lemma_butterfly_inverse(a[j] as int, a[j + h] as int, w, wi, p);
            } else {
                lemma_butterfly_inverse(a[j - h] as int, a[j] as int, w, wi, p);
            }
        }
        assert(r =~= a);
    }
}

/// One forward butterfly undoes one backward butterfly.
pub proof fn lemma_butterfly_forward(x: int, y: int, w: int, wi: int, p: int)
    requires
        2 <= p,
        p % 2 == 1,
        0 <= x < p,
        0 <= y < p,
        halved_inverse(w, wi, p),
    ensures
        add_mod(
            mul_mod(add_mod(x, y, p), half_of(p), p),
            mul_mod(mul_mod(sub_mod(x, y, p), wi, p), w, p),
            p,
        ) == x,
        sub_mod(
            mul_mod(add_mod(x, y, p), half_of(p), p),
            mul_mod(mul_mod(sub_mod(x, y, p), wi, p), w, p),
            p,
        ) == y,
{
    let h = half_of(p);
    let s = add_mod(x, y, p);
    let d = sub_mod(x, y, p);
    let pp = mul_mod(s, h, p);
    let qq = mul_mod(d, wi, p);
    let t = mul_mod(qq, w, p);
    assert(2 * h == p + 1);
    // w wi == h (mod p), as 2 w wi == 1 and 2 h == 1
    assert((w * wi) % p == h % p) by {
        lemma_mul_mod_noop_left(w * wi, 2, p);
        assert(((w * wi) * 2) % p == 1);
        lemma_mul_mod_noop_left((w * wi) * 2, h, p);
        lemma_small_mod(1, p as nat);
        assert((((w * wi) * 2) * h) % p == (1 * h) % p);
        assert(((w * wi) * 2) * h == (w * wi) * (p + 1)) by (nonlinear_arith)
            requires
                2 * h == p + 1,
        ;
        assert((w * wi) * (p + 1) == (w * wi) * p + w * wi) by (nonlinear_arith);
        lemma_mod_multiples_vanish(w * wi, w * wi, p);
    }
    // t == (x - y) h (mod p)
    assert(t % p == ((x - y) * h) % p) by {
        lemma_mod_twice(qq * w, p);
        lemma_mul_mod_noop_left(d * wi, w, p);
        assert((d * wi) * w == d * (wi * w)) by (nonlinear_arith);
        assert(wi * w == w * wi) by (nonlinear_arith);
        lemma_mul_mod_noop_general(d, w * wi, p);
        lemma_mul_mod_noop_general(x - y, h, p);
        lemma_mod_twice(x - y, p);
    }
    // pp == (x + y) h (mod p)
    assert(pp % p == ((x + y) * h) % p) by {
        lemma_mod_twice(s * h, p);
        lemma_mul_mod_noop_left(x + y, h, p);
    }
    lemma_add_mod_noop(pp, t, p);
    lemma_add_mod_noop((x + y) * h, (x - y) * h, p);
    lemma_sub_mod_noop(pp, t, p);
    lemma_sub_mod_noop((x + y) * h, (x - y) * h, p);
    assert((x + y) * h + (x - y) * h == x * p + x) by (nonlinear_arith)
        requires
            2 * h == p + 1,
    ;
    assert((x + y) * h - (x - y) * h == y * p + y) by (nonlinear_arith)
        requires
            2 * h == p + 1,
    ;
    lemma_mod_multiples_vanish(x, x, p);
    lemma_mod_multiples_vanish(y, y, p);
    lemma_small_mod(x as nat, p as nat);
    lemma_small_mod(y as nat, p as nat);
}

/// The forward transform undoes the backward transform, node by node,
/// where the two tables hold inverse roots.
pub proof fn lemma_ntt_intt(b: Seq<u64>, tw: Seq<u64>, twi: Seq<u64>, idx: int, p: int)
    requires
        2 <= p < 0x4000_0000_0000_0000,
        p % 2 == 1,
        is_power_of_two(b.len()),
        is_reduced(b, p),
        idx >= 1,
        (idx + 1) * b.len() <= 2 * tw.len(),
        inverse_tables(tw, twi, p),
    ensures
        ntt(intt(b, twi, idx, p), tw, idx, p) == b,
    decreases b.len(),
{
    if b.len() >= 2 {
        lemma_power_of_two_halves(b.len());
        let h = (b.len() / 2) as int;
        let w = tw[idx] as int;
        let wi = twi[idx] as int;
        assert(idx < tw.len()) by (nonlinear_arith)
            requires
                (idx + 1) * b.len() <= 2 * tw.len(),
                b.len() >= 2,
                idx >= 1,
        ;
        assert((2 * idx + 1) * h <= 2 * tw.len() && (2 * idx + 2) * h <= 2 * tw.len())
            by (nonlinear_arith)
            requires
                (idx + 1) * b.len() <= 2 * tw.len(),
                b.len() == 2 * h,
                h >= 1,
                idx >= 1,
        ;
        let b0 = b.subrange(0, h);
        let b1 = b.subrange(h, 2 * h);
        lemma_intt_shape(b0, twi, 2 * idx, p);
        lemma_intt_shape(b1, twi, 2 * idx + 1, p);
        let x = intt(b0, twi, 2 * idx, p);
        let y = intt(b1, twi, 2 * idx + 1, p);
        let z = intt_merge(x, y, wi, p);
        assert(intt(b, twi, idx, p) == z);
        assert forall|j: int| 0 <= j < h implies ntt_low(z, w, p)[j] == x[j] && ntt_high(
            z,
            w,
            p,
        )[j] == y[j] by {
            lemma_butterfly_forward(x[j] as int, y[j] as int, w, wi, p);
            lemma_mod_bound(add_mod(x[j] as int, y[j] as int, p) * half_of(p), p);
            lemma_mod_bound(sub_mod(x[j] as int, y[j] as int, p) * wi, p);
        }
        assert(ntt_low(z, w, p) =~= x);
        assert(ntt_high(z, w, p) =~= y);
        lemma_ntt_intt(b0, tw, twi, 2 * idx, p);
        lemma_ntt_intt(b1, tw, twi, 2 * idx + 1, p);
        assert(b0 + b1 =~= b);
    }
}

/// Where the search for a generator ends below `p`, it ends on a root.
pub proof fn lemma_least_generator(p: int, n: nat, from: int)
    requires
        least_generator(p, n, from) < p,
    ensures
        from <= least_generator(p, n, from),
        is_root(root_of(least_generator(p, n, from), n, p), n, p),
    decreases p - from,
{
    if from < p && !is_root(root_of(from, n, p), n, p) {
        lemma_least_generator(p, n, from + 1);
    }
}

/// The tables of the transform hold inverse roots.
pub proof fn lemma_tables_inverse(p: int, n: nat)
    requires
        2 <= p < 0x4000_0000_0000_0000,
        p % 2 == 1,
        n >= 1,
        primitive_root(p, n) is Some,
    ensures
        inverse_tables(twiddles(p, n), inv_twiddles(p, n), p),
{
    let psi = psi_of(p, n);
    lemma_least_generator(p, n, 2);
    assert(is_root(psi, n, p));
    // psi^(2n) == 1
    lemma_pow_mod_adds(psi, n, n, p);
    assert((p - 1) * (p - 1) == (p - 2) * p + 1) by (nonlinear_arith);
    lemma_fundamental_div_mod_converse((p - 1) * (p - 1), p, p - 2, 1);
    assert(pow_mod(psi, 2 * n, p) == 1);
    let tw = twiddles(p, n);
    let twi = inv_twiddles(p, n);
    let h = half_of(p);
    assert forall|i: int| 1 <= i < tw.len() implies halved_inverse(
        #[trigger] tw[i] as int,
        twi[i] as int,
        p,
    ) by {
        let e = twiddle_exponent(i as nat, n);
        lemma_twiddle_exponent_bound(i as nat, n);
        let f = (2 * n - e) as nat;
        let w = pow_mod(psi, e, p);
        let v = pow_mod(psi, f, p);
        let wi = mul_mod(v, h, p);
        lemma_mod_bound(pow(psi, e), p);
        lemma_mod_bound(pow(psi, f), p);
        lemma_mod_bound(v * h, p);
        lemma_pow_mod_adds(psi, e, f, p);
        assert(mul_mod(w, v, p) == 1);
        // w * wi * 2 == w * v * (2h) == w * v (mod p)
        assert((w * wi) % p == (w * (v * h)) % p) by {
            lemma_mul_mod_noop_right(w, v * h, p);
        }
        assert(((w * wi) % p * 2) % p == (w * (v * h) * 2) % p) by {
            lemma_mul_mod_noop_left(w * wi, 2, p);
            lemma_mul_mod_noop_left(w * (v * h), 2, p);
        }
        assert(w * (v * h) * 2 == (w * v) * (p + 1)) by (nonlinear_arith)
            requires
                2 * h == p + 1,
        ;
        assert(((w * v) * (p + 1)) % p == 1) by {
            lemma_mul_mod_noop_general(w * v, p + 1, p);
            lemma_mod_multiples_vanish(1, 1, p);
            lemma_small_mod(1, p as nat);
        }
    }
}

/// The backward transform undoes the forward transform.
pub proof fn lemma_backward_forward(a: Seq<u64>, p: int, n: nat)
    requires
        2 <= p < 0x4000_0000_0000_0000,
        p % 2 == 1,
        is_power_of_two(n),
        primitive_root(p, n) is Some,
        a.len() == n,
        is_reduced(a, p),
    ensures
        backward_transform(forward_transform(a, p, n), p, n) == a,
{
    lemma_tables_inverse(p, n);
    lemma_intt_ntt(a, twiddles(p, n), inv_twiddles(p, n), 1, p);
}

/// The forward transform undoes the backward transform.
pub proof fn lemma_forward_backward(a: Seq<u64>, p: int, n: nat)
    requires
        2 <= p < 0x4000_0000_0000_0000,
        p % 2 == 1,
        is_power_of_two(n),
        primitive_root(p, n) is Some,
        a.len() == n,
        is_reduced(a, p),
    ensures
        forward_transform(backward_transform(a, p, n), p, n) == a,
{
    lemma_tables_inverse(p, n);
    lemma_ntt_intt(a, twiddles(p, n), inv_twiddles(p, n), 1, p);
}

/// A transform of a fixed length modulo a fixed prime.
#[derive(Debug, Clone, PartialEq, Eq)]
pub struct NttOperator {
    p: Modulus,
    size: usize,
    tw: Vec<u64>,
    tw_shoup: Vec<u64>,
    twi: Vec<u64>,
    twi_shoup: Vec<u64>,
    half: u64,
    half_shoup: u64,
}

impl NttOperator {
    /// The modulus of the transform.
    pub closed spec fn modulus(&self) -> int {
        self.p@
    }

    /// The length of the transform.
    pub closed spec fn size(&self) -> nat {
        self.size as nat
    }

    /// The tables are those of the modulus and the length.
    pub closed spec fn wf(&self) -> bool {
        &&& self.p.wf()
        &&& supports_ntt(self.p@, self.size as nat)
        &&& primitive_root(self.p@, self.size as nat) is Some
        &&& self.tw@ == twiddles(self.p@, self.size as nat)
        &&& self.twi@ == inv_twiddles(self.p@, self.size as nat)
        &&& self.tw_shoup@ == shoup_seq(self.tw@, self.p@)
        &&& self.twi_shoup@ == shoup_seq(self.twi@, self.p@)
        &&& is_reduced(self.tw@, self.p@)
        &&& is_reduced(self.twi@, self.p@)
        &&& self.half == half_of(self.p@)
        &&& self.half_shoup == shoup_of(self.half as int, self.p@)
    }

    /// What a well-formed operator is made for.
    pub proof fn lemma_wf(&self)
        requires
            self.wf(),
        ensures
            2 <= self.modulus() < 0x4000_0000_0000_0000,
            supports_ntt(self.modulus(), self.size()),
            primitive_root(self.modulus(), self.size()) is Some,
            self.modulus() % 2 == 1,
    {
        lemma_odd(self.p@, self.size as nat);
    }

    /// The operator for the modulus `p` and the length `size`, where `p`
    /// supports it and a primitive root is found.
    pub fn new(p: &Modulus, size: usize) -> (r: Option<NttOperator>)
        requires
            p.wf(),
        ensures
            r is Some <==> supports_ntt(p@, size as nat) && primitive_root(p@, size as nat)
                is Some,
            r matches Some(op) ==> op.wf() && op.modulus() == p@ && op.size() == size,
    {
        let q = p.modulus();
        let ghost n = size as nat;
        if size < 8 || !check_power_of_two(size) {
            return None;
        }
        if size as u64 >= q {
            proof {
                lemma_small_mod(q as nat, 2 * n);
            }
            return None;
        }
        let two_n: u64 = 2 * (size as u64);
        if q % two_n != 1 || !word_is_prime(q) {
            return None;
        }
        proof {
            lemma_odd(q as int, n);
        }
        let lambda: u64 = (q - 1) / two_n;
        let mut g: u64 = 2;
        let mut psi: u64 = 0;
        let mut found = false;
        while g < q && !found
            invariant
                p.wf(),
                q == p@,
                n == size as nat,
                2 <= g <= q,
                lambda == (q - 1) / (2 * n) as int,
                least_generator(q as int, n, 2) == least_generator(q as int, n, g as int),
                found ==> g < q && psi == root_of(g as int, n, q as int) && is_root(
                    psi as int,
                    n,
                    q as int,
                ),
            decreases q - g + if found { 0int } else { 1int },
        {
            let x = p.pow(g, lambda);
            let y = p.pow(x, size as u64);
            if y == q - 1 {
                psi = x;
                found = true;
            } else {
                g = g + 1;
            }
        }
        if !found {
            return None;
        }
        proof {
            assert(least_generator(q as int, n, g as int) == g);
            assert(primitive_root(q as int, n) == Some(psi as int));
        }
        let half: u64 = (q + 1) / 2;
        let half_shoup = p.shoup(half);
        let mut exps: Vec<usize> = Vec::with_capacity(size);
        let mut tw: Vec<u64> = Vec::with_capacity(size);
        let mut twi: Vec<u64> = Vec::with_capacity(size);
        let mut i: usize = 0;
        while i < size
            invariant
                p.wf(),
                q == p@,
                n == size as nat,
                8 <= size < q,
                i <= size,
                exps.len() == i,
                tw.len() == i,
                twi.len() == i,
                psi < q,
                psi == psi_of(q as int, n),
                half == half_of(q as int),
                half < q,
                forall|j: int| 0 <= j < i ==> exps@[j] == twiddle_exponent(j as nat, n),
                forall|j: int| 0 <= j < i ==> tw@[j] == twiddles(q as int, n)[j],
                forall|j: int| 0 <= j < i ==> twi@[j] == inv_twiddles(q as int, n)[j],
                forall|j: int| 0 <= j < i ==> (#[trigger] tw@[j]) < q,
                forall|j: int| 0 <= j < i ==> (#[trigger] twi@[j]) < q,
            decreases size - i,
        {
            proof {
                lemma_twiddle_exponent_bound(i as nat, n);
                if i > 1 {
                    lemma_twiddle_exponent_bound((i / 2) as nat, n);
                }
            }
            let e: usize = if i <= 1 {
                size / 2
            } else if i % 2 == 1 {
                exps[i / 2] / 2 + size / 2
            } else {
                exps[i / 2] / 2
            };
            let w = p.pow(psi, e as u64);
            let v = p.pow(psi, 2 * (size as u64) - (e as u64));
            let wi = p.mul(v, half);
            exps.push(e);
            tw.push(w);
            twi.push(wi);
            i += 1;
        }
        proof {
            assert(tw@ =~= twiddles(q as int, n));
            assert(twi@ =~= inv_twiddles(q as int, n));
        }
        let tw_shoup = p.shoup_vec(&tw);
        let twi_shoup = p.shoup_vec(&twi);
        Some(NttOperator { p: *p, size, tw, tw_shoup, twi, twi_shoup, half, half_shoup })
    }

    /// The forward transform of the part of `a` that starts at `start` and
    /// has `len` entries, at node `idx`.
    fn forward_range(&self, a: &mut Vec<u64>, start: usize, len: usize, idx: usize)
        requires
            self.wf(),
            start + len <= old(a).len(),
            is_power_of_two(len as nat),
            len >= 2,
            idx >= 1,
            (idx + 1) * len <= 2 * self.size,
            is_reduced(old(a)@, self.p@),
        ensures
            final(a).len() == old(a).len(),
            is_reduced(final(a)@, self.p@),
            final(a)@.subrange(start as int, start + len) == ntt(
                old(a)@.subrange(start as int, start + len),
                self.tw@,
                idx as int,
                self.p@,
            ),
            forall|k: int|
                0 <= k < old(a).len() && !(start <= k < start + len) ==> final(a)@[k] == old(
                    a,
                )@[k],
        decreases len,
    {
        let h = len / 2;
        proof {
            lemma_power_of_two_halves(len as nat);
            assert(idx < self.size) by (nonlinear_arith)
                requires
                    (idx + 1) * len <= 2 * self.size,
                    len >= 2,
            ;
            assert((2 * idx + 2) * h <= 2 * self.size) by (nonlinear_arith)
                requires
                    (idx + 1) * len <= 2 * self.size,
                    len == 2 * h,
            ;
            assert((2 * idx + 1) * h <= (2 * idx + 2) * h) by (nonlinear_arith);
            assert(h >= 2 ==> 2 * idx + 2 <= self.size) by (nonlinear_arith)
                requires
                    (2 * idx + 2) * h <= 2 * self.size,
            ;
            lemma_shoup_bound(0, self.tw@[idx as int] as int, self.p@);
            lemma_shoup_bound(0, self.twi@[idx as int] as int, self.p@);
        }
        let w = self.tw[idx];
        let ws = self.tw_shoup[idx];
        let ghost src = a@.subrange(start as int, start + len);
        let ghost lo = ntt_low(src, w as int, self.p@);
        let ghost hi = ntt_high(src, w as int, self.p@);
        let mut j: usize = 0;
        while j < h
            invariant
                self.wf(),
                j <= h,
                len == 2 * h,
                start + len <= a.len(),
                a.len() == old(a).len(),
                w == self.tw@[idx as int],
                w < self.p@,
                ws == shoup_of(w as int, self.p@),
                src == old(a)@.subrange(start as int, start + len),
                lo == ntt_low(src, w as int, self.p@),
                hi == ntt_high(src, w as int, self.p@),
                is_reduced(a@, self.p@),
                forall|k: int| start <= k < start + j ==> a@[k] == lo[k - start],
                forall|k: int| start + h <= k < start + h + j ==> a@[k] == hi[k - start - h],
                forall|k: int| start + j <= k < start + h ==> a@[k] == old(a)@[k],
                forall|k: int| start + h + j <= k < start + len ==> a@[k] == old(a)@[k],
                forall|k: int|
                    0 <= k < a.len() && !(start <= k < start + len) ==> a@[k] == old(a)@[k],
            decreases h - j,
        {
            let u = a[start + j];
            let v = self.p.mul_shoup(a[start + j + h], w, ws);
            let x = self.p.add(u, v);
            let y = self.p.sub(u, v);
            a.set(start + j, x);
            a.set(start + j + h, y);
            j += 1;
        }
        proof {
            assert(a@.subrange(start as int, start + h) =~= lo);
            assert(a@.subrange(start + h, start + len) =~= hi);
        }
        let ghost mid = a@;
        if h >= 2 {
            self.forward_range(a, start, h, 2 * idx);
        }
        let ghost mid2 = a@;
        proof {
            assert(mid2.subrange(start + h, start + len) =~= mid.subrange(
                start + h,
                start + len,
            ));
        }
        if h >= 2 {
            self.forward_range(a, start + h, h, 2 * idx + 1);
        }
        proof {
            let big_lo = ntt(lo, self.tw@, 2 * idx, self.p@);
            let big_hi = ntt(hi, self.tw@, 2 * idx + 1, self.p@);
            assert(a@.subrange(start as int, start + h) =~= mid2.subrange(
                start as int,
                start + h,
            ));
            lemma_ntt_shape(lo, self.tw@, 2 * idx, self.p@);
            lemma_ntt_shape(hi, self.tw@, 2 * idx + 1, self.p@);
            assert(a@.subrange(start as int, start + len) =~= a@.subrange(
                start as int,
                start + h,
            ) + a@.subrange(start + h, start + len));
        }
    }

    /// The backward transform of the part of `a` that starts at `start` and
    /// has `len` entries, at node `idx`.
    fn backward_range(&self, a: &mut Vec<u64>, start: usize, len: usize, idx: usize)
        requires
            self.wf(),
            start + len <= old(a).len(),
            is_power_of_two(len as nat),
            len >= 2,
            idx >= 1,
            (idx + 1) * len <= 2 * self.size,
            is_reduced(old(a)@, self.p@),
        ensures
            final(a).len() == old(a).len(),
            is_reduced(final(a)@, self.p@),
            final(a)@.subrange(start as int, start + len) == intt(
                old(a)@.subrange(start as int, start + len),
                self.twi@,
                idx as int,
                self.p@,
            ),
            forall|k: int|
                0 <= k < old(a).len() && !(start <= k < start + len) ==> final(a)@[k] == old(
                    a,
                )@[k],
        decreases len,
    {
        let h = len / 2;
        proof {
            lemma_power_of_two_halves(len as nat);
            assert(idx < self.size) by (nonlinear_arith)
                requires
                    (idx + 1) * len <= 2 * self.size,
                    len >= 2,
            ;
            assert((2 * idx + 2) * h <= 2 * self.size) by (nonlinear_arith)
                requires
                    (idx + 1) * len <= 2 * self.size,
                    len == 2 * h,
            ;
            assert((2 * idx + 1) * h <= (2 * idx + 2) * h) by (nonlinear_arith);
            assert(h >= 2 ==> 2 * idx + 2 <= self.size) by (nonlinear_arith)
                requires
                    (2 * idx + 2) * h <= 2 * self.size,
            ;
            lemma_shoup_bound(0, self.tw@[idx as int] as int, self.p@);
            lemma_shoup_bound(0, self.twi@[idx as int] as int, self.p@);
        }
        let ghost src = a@.subrange(start as int, start + len);
        let ghost b0 = src.subrange(0, h as int);
        let ghost b1 = src.subrange(h as int, 2 * h);
        proof {
            assert(h == 1 ==> !is_power_of_two(0));
            assert(a@.subrange(start as int, start + h) =~= b0);
            assert(a@.subrange(start + h, start + len) =~= b1);
        }
        if h >= 2 {
            self.backward_range(a, start, h, 2 * idx);
        }
        let ghost mid = a@;
        proof {
            assert(mid.subrange(start + h, start + len) =~= b1);
        }
        if h >= 2 {
            self.backward_range(a, start + h, h, 2 * idx + 1);
        }
        let ghost x = intt(b0, self.twi@, 2 * idx, self.p@);
        let ghost y = intt(b1, self.twi@, 2 * idx + 1, self.p@);
        proof {
            assert(a@.subrange(start as int, start + h) =~= mid.subrange(
                start as int,
                start + h,
            ));
            lemma_intt_shape(b0, self.twi@, 2 * idx, self.p@);
            lemma_intt_shape(b1, self.twi@, 2 * idx + 1, self.p@);
            assert(forall|k: int| start <= k < start + h ==> a@[k] == a@.subrange(
                start as int,
                start + h,
            )[k - start]);
            assert(forall|k: int| start + h <= k < start + len ==> a@[k] == a@.subrange(
                start + h,
                start + len,
            )[k - start - h]);
        }
        let wi = self.twi[idx];
        let wis = self.twi_shoup[idx];
        let ghost merged = intt_merge(x, y, wi as int, self.p@);
        let mut j: usize = 0;
        while j < h
            invariant
                self.wf(),
                j <= h,
                len == 2 * h,
                start + len <= a.len(),
                a.len() == old(a).len(),
                wi == self.twi@[idx as int],
                wi < self.p@,
                wis == shoup_of(wi as int, self.p@),
                x.len() == h,
                y.len() == h,
                merged == intt_merge(x, y, wi as int, self.p@),
                is_reduced(a@, self.p@),
                forall|k: int| start <= k < start + j ==> a@[k] == merged[k - start],
                forall|k: int| start + h <= k < start + h + j ==> a@[k] == merged[k - start],
                forall|k: int| start + j <= k < start + h ==> a@[k] == x[k - start],
                forall|k: int| start + h + j <= k < start + len ==> a@[k] == y[k - start - h],
                forall|k: int|
                    0 <= k < a.len() && !(start <= k < start + len) ==> a@[k] == old(a)@[k],
            decreases h - j,
        {
            let u = a[start + j];
            let v = a[start + j + h];
            let s = self.p.add(u, v);
            let d = self.p.sub(u, v);
            let lo = self.p.mul_shoup(s, self.half, self.half_shoup);
            let hi = self.p.mul_shoup(d, wi, wis);
            a.set(start + j, lo);
            a.set(start + j + h, hi);
            j += 1;
        }
        proof {
            assert(a@.subrange(start as int, start + len) =~= merged);
        }
    }

    /// Replaces `a` by its forward transform.
    pub fn forward(&self, a: &mut Vec<u64>)
        requires
            self.wf(),
            old(a).len() == self.size(),
            is_reduced(old(a)@, self.modulus()),
        ensures
            final(a)@ == forward_transform(old(a)@, self.modulus(), self.size()),
            final(a).len() == old(a).len(),
            is_reduced(final(a)@, self.modulus()),
    {
        proof {
            assert(old(a)@.subrange(0, self.size as int) =~= old(a)@);
        }
        self.forward_range(a, 0, self.size, 1);
        proof {
            assert(a@.subrange(0, self.size as int) =~= a@);
        }
    }

    /// Replaces `a` by its backward transform.
    pub fn backward(&self, a: &mut Vec<u64>)
        requires
            self.wf(),
            old(a).len() == self.size(),
            is_reduced(old(a)@, self.modulus()),
        ensures
            final(a)@ == backward_transform(old(a)@, self.modulus(), self.size()),
            final(a).len() == old(a).len(),
            is_reduced(final(a)@, self.modulus()),
    {
        proof {
            assert(old(a)@.subrange(0, self.size as int) =~= old(a)@);
        }
        self.backward_range(a, 0, self.size, 1);
        proof {
            assert(a@.subrange(0, self.size as int) =~= a@);
        }
    }
}

/// A modulus that is 1 modulo an even number is odd.
pub proof fn lemma_odd(p: int, n: nat)
    requires
        n >= 1,
        p % (2 * n) as int == 1,
    ensures
        p % 2 == 1,
{
    let m = (2 * n) as int;
    lemma_fundamental_div_mod(p, m);
    let k = p / m;
    assert(p == (k * n) * 2 + 1) by (nonlinear_arith)
        requires
            p == m * k + 1,
            m == 2 * n,
    ;
    lemma_fundamental_div_mod_converse(p, 2, k * n, 1);
}

} // verus!

//! The convolution theorem: the entry-wise product of two forward
//! transforms is the forward transform of the negacyclic product.

use crate::congruence::{
    congruent, lemma_congruent_add, lemma_congruent_mul, lemma_congruent_sub,
    lemma_residue_congruent,
};
use crate::ntt::{
    forward_transform, lemma_least_generator, lemma_ntt_shape, lemma_power_of_two_halves, ntt,
    ntt_high, ntt_low, primitive_root, psi_of, twiddle_exponent, twiddles,
};
use crate::primes::is_power_of_two;
use crate::zq::{is_reduced, lemma_pow_mod_adds, mul_mod, mul_seq, pow_mod};
use vstd::arithmetic::div_mod::*;
use vstd::arithmetic::power::*;
use vstd::prelude::*;

verus! {

/// The sum of `f` over the first `m` integers.
pub open spec fn sum(f: spec_fn(int) -> int, m: nat) -> int
    decreases m,
{
    if m == 0 {
        0
    } else {
        sum(f, (m - 1) as nat) + f(m - 1)
    }
}

/// Sums of terms that are congruent are congruent.
pub proof fn lemma_sum_congruent(f: spec_fn(int) -> int, g: spec_fn(int) -> int, m: nat, p: int)
    requires
        p > 0,
        forall|i: int| 0 <= i < m ==> congruent(#[trigger] f(i), g(i), p),
    ensures
        congruent(sum(f, m), sum(g, m), p),
    decreases m,
{
    if m > 0 {
        lemma_sum_congruent(f, g, (m - 1) as nat, p);
        assert(congruent(f(m - 1), g(m - 1), p));
        lemma_congruent_add(sum(f, (m - 1) as nat), f(m - 1), sum(g, (m - 1) as nat), g(m - 1), p);
    }
}

/// The sum of `c f + d g` is `c` times the sum of `f` plus `d` times the
/// sum of `g`.
pub proof fn lemma_sum_linear(
    f: spec_fn(int) -> int,
    g: spec_fn(int) -> int,
    c: int,
    d: int,
    h: spec_fn(int) -> int,
    m: nat,
)
    requires
        forall|i: int| 0 <= i < m ==> #[trigger] h(i) == c * f(i) + d * g(i),
    ensures
        sum(h, m) == c * sum(f, m) + d * sum(g, m),
    decreases m,
{
    if m > 0 {
        lemma_sum_linear(f, g, c, d, h, (m - 1) as nat);
        let sf = sum(f, (m - 1) as nat);
        let sg = sum(g, (m - 1) as nat);
        assert(h(m - 1) == c * f(m - 1) + d * g(m - 1));
        assert(c * (sf + f(m - 1)) == c * sf + c * f(m - 1)) by (nonlinear_arith);
        assert(d * (sg + g(m - 1)) == d * sg + d * g(m - 1)) by (nonlinear_arith);
    }
}

/// The sum over `m + j` integers is the sum over the first `m` plus the
/// sum of the next `j`.
pub proof fn lemma_sum_split(
    f: spec_fn(int) -> int,
    shifted: spec_fn(int) -> int,
    m: nat,
    j: nat,
)
    requires
        forall|i: int| 0 <= i < j ==> #[trigger] shifted(i) == f(i + m),
    ensures
        sum(f, m + j) == sum(f, m) + sum(shifted, j),
    decreases j,
{
    if j > 0 {
        lemma_sum_split(f, shifted, m, (j - 1) as nat);
        assert(shifted(j - 1) == f(j - 1 + m));
    }
}

/// The term at `i` of the coefficient `k` of the product of `x` and `y`
/// modulo `X^L - v`: `x_i y_{k-i}`, or `v x_i y_{k-i+L}` where `i > k`.
pub open spec fn wrap_term(x: Seq<u64>, y: Seq<u64>, v: int, k: int, i: int) -> int {
    if i <= k {
        (x[i] as int) * (y[k - i] as int)
    } else {
        v * ((x[i] as int) * (y[k - i + x.len()] as int))
    }
}

/// The terms of the coefficient `k` of the product of `x` and `y` modulo
/// `X^L - v`.
pub open spec fn wrap_terms(x: Seq<u64>, y: Seq<u64>, v: int, k: int) -> spec_fn(int) -> int {
    |i: int| wrap_term(x, y, v, k, i)
}

/// The product of the polynomials `x` and `y` modulo `X^L - v` and modulo
/// `p`, where `L` is their length.
pub open spec fn wrapped_product(x: Seq<u64>, y: Seq<u64>, v: int, p: int) -> Seq<u64> {
    Seq::new(x.len(), |k: int| (sum(wrap_terms(x, y, v, k), x.len()) % p) as u64)
}

/// The negacyclic product of `x` and `y` modulo `p`: their product modulo
/// `X^L + 1`.
pub open spec fn negacyclic_product(x: Seq<u64>, y: Seq<u64>, p: int) -> Seq<u64> {
    wrapped_product(x, y, -1, p)
}

/// The polynomial `z` of even length modulo `X^h - c`: the lower half plus
/// `c` times the upper half.
pub open spec fn fold(z: Seq<u64>, c: int, p: int) -> Seq<u64> {
    let h = (z.len() / 2) as int;
    Seq::new(h as nat, |k: int| (((z[k] as int) + c * (z[k + h] as int)) % p) as u64)
}

/// The two halves of a layer of butterflies are the polynomial modulo
/// `X^h - w` and modulo `X^h + w`.
pub proof fn lemma_butterflies_fold(z: Seq<u64>, w: int, p: int)
    requires
        0 < p < 0x4000_0000_0000_0000,
        z.len() % 2 == 0,
    ensures
        ntt_low(z, w, p) == fold(z, w, p),
        ntt_high(z, w, p) == fold(z, -w, p),
{
    let h = (z.len() / 2) as int;
    assert forall|k: int| 0 <= k < h implies ntt_low(z, w, p)[k] == fold(z, w, p)[k] && ntt_high(
        z,
        w,
        p,
    )[k] == fold(z, -w, p)[k] by {
        let a = z[k] as int;
        let b = z[k + h] as int;
        lemma_residue_congruent(b * w, p);
        lemma_congruent_add(a, mul_mod(b, w, p), a, b * w, p);
        lemma_congruent_sub(a, mul_mod(b, w, p), a, b * w, p);
        assert(b * w == w * b) by (nonlinear_arith);
        assert(a - b * w == a + (-w) * b) by (nonlinear_arith);
    }
    assert(ntt_low(z, w, p) =~= fold(z, w, p));
    assert(ntt_high(z, w, p) =~= fold(z, -w, p));
}

/// `(a0 + c a1) (b0 + c b1)` is `a0 b0 + v a1 b1 + c (a0 b1 + a1 b0)`
/// modulo `p`, where `c c` is `v`.
pub proof fn lemma_pair_product(a0: int, a1: int, b0: int, b1: int, c: int, v: int, p: int)
    requires
        p > 0,
        congruent(c * c, v, p),
    ensures
        congruent((a0 + c * a1) * (b0 + c * b1), a0 * b0 + v * (a1 * b1) + c * (a0 * b1 + a1 * b0), p),
{
    let cross = a0 * b1 + a1 * b0;
    assert((a0 + c * a1) * (b0 + c * b1) == a0 * (b0 + c * b1) + (c * a1) * (b0 + c * b1))
        by (nonlinear_arith);
    assert(a0 * (b0 + c * b1) == a0 * b0 + c * (a0 * b1)) by (nonlinear_arith);
    assert((c * a1) * (b0 + c * b1) == c * (a1 * b0) + (c * c) * (a1 * b1)) by (nonlinear_arith);
    assert(c * (a0 * b1) + c * (a1 * b0) == c * cross) by (nonlinear_arith)
        requires
            cross == a0 * b1 + a1 * b0,
    ;
    assert((a0 + c * a1) * (b0 + c * b1) == a0 * b0 + (c * c) * (a1 * b1) + c * cross);
    lemma_congruent_mul(c * c, a1 * b1, v, a1 * b1, p);
    lemma_congruent_add(a0 * b0 + c * cross, (c * c) * (a1 * b1), a0 * b0 + c * cross, v * (a1 * b1), p);
}

/// The coefficient `k` of the product modulo `X^L - v`, reduced modulo
/// `X^h - c` where `c c` is `v`, is the coefficient `k` of the product of
/// the reduced polynomials modulo `X^h - u` where `u` is `c`.
pub proof fn lemma_fold_product_at(
    x: Seq<u64>,
    y: Seq<u64>,
    v: int,
    c: int,
    u: int,
    p: int,
    k: int,
)
    requires
        0 < p < 0x4000_0000_0000_0000,
        x.len() == y.len(),
        x.len() % 2 == 0,
        congruent(c * c, v, p),
        congruent(u, c, p),
        0 <= k < x.len() / 2,
    ensures
        fold(wrapped_product(x, y, v, p), c, p)[k] == wrapped_product(
            fold(x, c, p),
            fold(y, c, p),
            u,
            p,
        )[k],
{
    let len = x.len();
    let h = (len / 2) as int;
    let wp = wrapped_product(x, y, v, p);
    let fx = fold(x, c, p);
    let fy = fold(y, c, p);
    let a = wrap_terms(x, y, v, k);
    let b = wrap_terms(x, y, v, k + h);
    let a_up = |i: int| wrap_term(x, y, v, k, i + h);
    let b_up = |i: int| wrap_term(x, y, v, k + h, i + h);
    let a_pair = |i: int| wrap_term(x, y, v, k, i) + wrap_term(x, y, v, k, i + h);
    let b_pair = |i: int| wrap_term(x, y, v, k + h, i) + wrap_term(x, y, v, k + h, i + h);
    let g = |i: int|
        (wrap_term(x, y, v, k, i) + wrap_term(x, y, v, k, i + h)) + c * (wrap_term(
            x,
            y,
            v,
            k + h,
            i,
        ) + wrap_term(x, y, v, k + h, i + h));
    let r = wrap_terms(fx, fy, u, k);
    // the sums over the whole length, by pairs
    lemma_sum_split(a, a_up, h as nat, h as nat);
    lemma_sum_split(b, b_up, h as nat, h as nat);
    lemma_sum_linear(a, a_up, 1, 1, a_pair, h as nat);
    lemma_sum_linear(b, b_up, 1, 1, b_pair, h as nat);
    lemma_sum_linear(a_pair, b_pair, 1, c, g, h as nat);
    let sa = sum(a, len);
    let sb = sum(b, len);
    assert(len == (h + h) as nat);
    assert(sum(g, h as nat) == sa + c * sb) by {
        assert(1 * sum(a, h as nat) + 1 * sum(a_up, h as nat) == sum(a, h as nat) + sum(
            a_up,
            h as nat,
        ));
        assert(1 * sum(b, h as nat) + 1 * sum(b_up, h as nat) == sum(b, h as nat) + sum(
            b_up,
            h as nat,
        ));
        assert(1 * sum(a_pair, h as nat) == sum(a_pair, h as nat));
    }
    // the left side is the sum of g
    lemma_mod_bound(sa, p);
    lemma_mod_bound(sb, p);
    assert(wp[k] == sa % p);
    assert(wp[k + h] == sb % p);
    lemma_residue_congruent(sa, p);
    lemma_residue_congruent(sb, p);
    lemma_congruent_mul(c, sb % p, c, sb, p);
    lemma_congruent_add(sa % p, c * (sb % p), sa, c * sb, p);
    // term by term, g is the term of the folded product
    assert forall|i: int| 0 <= i < h implies congruent(#[trigger] g(i), r(i), p) by {
        let x0 = x[i] as int;
        let x1 = x[i + h] as int;
        lemma_residue_congruent(x0 + c * x1, p);
        lemma_mod_bound(x0 + c * x1, p);
        assert(fx[i] == (x0 + c * x1) % p);
        if i <= k {
            let y0 = y[k - i] as int;
            let y1 = y[k - i + h] as int;
            lemma_residue_congruent(y0 + c * y1, p);
            lemma_mod_bound(y0 + c * y1, p);
            assert(fy[k - i] == (y0 + c * y1) % p);
            assert(r(i) == (fx[i] as int) * (fy[k - i] as int));
            lemma_congruent_mul((x0 + c * x1) % p, (y0 + c * y1) % p, x0 + c * x1, y0 + c * y1, p);
            lemma_pair_product(x0, x1, y0, y1, c, v, p);
            assert(wrap_term(x, y, v, k, i) == x0 * y0);
            assert(wrap_term(x, y, v, k, i + h) == v * (x1 * y1));
            assert(wrap_term(x, y, v, k + h, i) == x0 * y1);
            assert(wrap_term(x, y, v, k + h, i + h) == x1 * y0);
            assert(g(i) == x0 * y0 + v * (x1 * y1) + c * (x0 * y1 + x1 * y0));
        } else {
            let y0 = y[k - i + h] as int;
            let y1 = y[k - i + len] as int;
            assert(k - i + h + h == k - i + len);
            lemma_residue_congruent(y0 + c * y1, p);
            lemma_mod_bound(y0 + c * y1, p);
            assert(fy[k - i + h] == (y0 + c * y1) % p);
            assert(fx.len() == h);
            assert(r(i) == u * ((fx[i] as int) * (fy[k - i + h] as int)));
            lemma_congruent_mul((x0 + c * x1) % p, (y0 + c * y1) % p, x0 + c * x1, y0 + c * y1, p);
            lemma_pair_product(x0, x1, y0, y1, c, v, p);
            let inner = x0 * y0 + v * (x1 * y1) + c * (x0 * y1 + x1 * y0);
            lemma_congruent_mul(u, (fx[i] as int) * (fy[k - i + h] as int), c, inner, p);
            // c * inner == c x0 y0 + c v x1 y1 + (c c)(x0 y1 + x1 y0)
            let cross = x0 * y1 + x1 * y0;
            assert(c * inner == c * (x0 * y0) + c * (v * (x1 * y1)) + (c * c) * cross)
                by (nonlinear_arith)
                requires
                    inner == x0 * y0 + v * (x1 * y1) + c * cross,
            ;
            lemma_congruent_mul(c * c, cross, v, cross, p);
            lemma_congruent_add(
                c * (x0 * y0) + c * (v * (x1 * y1)),
                (c * c) * cross,
                c * (x0 * y0) + c * (v * (x1 * y1)),
                v * cross,
                p,
            );
            assert(wrap_term(x, y, v, k, i) == v * (x0 * y1));
            assert(wrap_term(x, y, v, k, i + h) == v * (x1 * y0));
            assert(wrap_term(x, y, v, k + h, i) == x0 * y0);
            assert(wrap_term(x, y, v, k + h, i + h) == v * (x1 * y1));
            assert(v * (x0 * y1) + v * (x1 * y0) == v * cross) by (nonlinear_arith)
                requires
                    cross == x0 * y1 + x1 * y0,
            ;
            assert(c * (x0 * y0 + v * (x1 * y1)) == c * (x0 * y0) + c * (v * (x1 * y1)))
                by (nonlinear_arith);
            assert(g(i) == v * cross + c * (x0 * y0 + v * (x1 * y1)));
        }
    }
    lemma_sum_congruent(g, r, h as nat, p);
    lemma_mod_bound(sum(r, h as nat), p);
}

/// The product modulo `X^L - v`, reduced modulo `X^h - c` where `c c` is
/// `v`, is the product of the reduced polynomials modulo `X^h - u` where
/// `u` is `c`.
pub proof fn lemma_fold_product(x: Seq<u64>, y: Seq<u64>, v: int, c: int, u: int, p: int)
    requires
        0 < p < 0x4000_0000_0000_0000,
        x.len() == y.len(),
        x.len() % 2 == 0,
        congruent(c * c, v, p),
        congruent(u, c, p),
    ensures
        fold(wrapped_product(x, y, v, p), c, p) == wrapped_product(
            fold(x, c, p),
            fold(y, c, p),
            u,
            p,
        ),
{
    let left = fold(wrapped_product(x, y, v, p), c, p);
    let right = wrapped_product(fold(x, c, p), fold(y, c, p), u, p);
    assert forall|k: int| 0 <= k < x.len() / 2 implies left[k] == right[k] by {
        lemma_fold_product_at(x, y, v, c, u, p, k);
    }
    assert(left =~= right);
}

/// A product modulo `X^L - v` gives residues.
pub proof fn lemma_wrapped_product_shape(x: Seq<u64>, y: Seq<u64>, v: int, p: int)
    requires
        0 < p < 0x4000_0000_0000_0000,
    ensures
        wrapped_product(x, y, v, p).len() == x.len(),
        is_reduced(wrapped_product(x, y, v, p), p),
{
    let w = wrapped_product(x, y, v, p);
    assert forall|k: int| 0 <= k < w.len() implies (#[trigger] w[k]) < p by {
        lemma_mod_bound(sum(wrap_terms(x, y, v, k), x.len()), p);
    }
}

/// The root of unity at a node whose transform has the length `len`:
/// its exponent is a multiple of half the length.
pub open spec fn node_ready(idx: int, len: nat, n: nat) -> bool {
    &&& idx >= 1
    &&& len >= 1
    &&& n % len == 0
    &&& len >= 2 ==> twiddle_exponent(idx as nat, n) % (len / 2) == 0
}

/// The value `v` of a node: its transform is that of polynomials modulo
/// `X^len - v`. It is the square of the root of unity of the node.
pub open spec fn node_value(idx: int, p: int, n: nat) -> int {
    pow_mod(psi_of(p, n), 2 * twiddle_exponent(idx as nat, n), p)
}

/// The children of a ready node are ready, and their values are the root
/// of unity of the node and its opposite.
pub proof fn lemma_children_ready(idx: int, len: nat, p: int, n: nat)
    requires
        2 <= p < 0x4000_0000_0000_0000,
        is_power_of_two(len),
        is_power_of_two(n),
        len >= 2,
        node_ready(idx, len, n),
        (idx + 1) * len <= 2 * n,
        primitive_root(p, n) is Some,
    ensures
        node_ready(2 * idx, len / 2, n),
        node_ready(2 * idx + 1, len / 2, n),
        len >= 4 ==> congruent(
            node_value(2 * idx, p, n),
            twiddles(p, n)[idx] as int,
            p,
        ) && congruent(node_value(2 * idx + 1, p, n), -(twiddles(p, n)[idx] as int), p),
        congruent(
            (twiddles(p, n)[idx] as int) * (twiddles(p, n)[idx] as int),
            node_value(idx, p, n),
            p,
        ),
        idx < n,
{
    let psi = psi_of(p, n);
    let h = len / 2;
    let e = twiddle_exponent(idx as nat, n);
    lemma_power_of_two_halves(len);
    crate::ntt::lemma_twiddle_exponent_bound(idx as nat, n);
    // n is a multiple of len, so of its half, and n >= len >= 2
    lemma_fundamental_div_mod(n as int, len as int);
    let c = (n / len) as int;
    assert(n == len * c);
    assert(n as int == (h as int) * (2 * c)) by (nonlinear_arith)
        requires
            n as int == (len as int) * c,
            len == 2 * h,
    ;
    lemma_fundamental_div_mod_converse(n as int, h as int, 2 * c, 0);
    assert(c >= 1) by (nonlinear_arith)
        requires
            n as int == (len as int) * c,
            n >= 1,
            len >= 2,
    ;
    assert(n >= 2) by (nonlinear_arith)
        requires
            n as int == (len as int) * c,
            c >= 1,
            len >= 2,
    ;
    lemma_power_of_two_halves(n);
    assert(idx < n) by (nonlinear_arith)
        requires
            (idx + 1) * len <= 2 * n,
            len >= 2,
            idx >= 1,
    ;
    let w = twiddles(p, n)[idx] as int;
    lemma_mod_bound(pow(psi, e), p);
    assert(w == pow_mod(psi, e, p));
    // w w == psi^(2e)
    lemma_pow_mod_adds(psi, e, e, p);
    assert(congruent(w * w, node_value(idx, p, n), p)) by {
        lemma_mod_twice(w * w, p);
    }
    if len >= 4 {
        // e is a multiple of h, and h is even
        lemma_power_of_two_halves(h);
        let q = (h / 2) as int;
        lemma_fundamental_div_mod(e as int, h as int);
        let m = (e / h) as int;
        assert(e as int == (2 * m) * q + 0 && e as int == 2 * (m * q)) by (nonlinear_arith)
            requires
                e as int == (h as int) * m,
                h as int == 2 * q,
        ;
        lemma_fundamental_div_mod_converse(e as int, 2, m * q, 0);
        let e0 = twiddle_exponent((2 * idx) as nat, n);
        let e1 = twiddle_exponent((2 * idx + 1) as nat, n);
        assert((2 * idx) / 2 == idx && (2 * idx + 1) / 2 == idx);
        assert(e0 == e / 2);
        assert(e1 == e / 2 + n / 2);
        assert(e / 2 == m * q);
        assert(e0 as int == m * q + 0);
        lemma_fundamental_div_mod_converse(e0 as int, q, m, 0);
        // n / 2 is a multiple of q
        assert((n / 2) as int == (2 * c) * q) by (nonlinear_arith)
            requires
                n as int == (h as int) * (2 * c),
                h as int == 2 * q,
                n == 2 * (n / 2),
        ;
        assert(e1 as int == (m + 2 * c) * q + 0) by (nonlinear_arith)
            requires
                e1 as int == m * q + (2 * c) * q,
        ;
        lemma_fundamental_div_mod_converse(e1 as int, q, m + 2 * c, 0);
        // the values of the children
        assert(2 * e0 == e);
        assert(2 * e1 == e + n);
        lemma_pow_mod_adds(psi, e, n, p);
        lemma_least_generator(p, n, 2);
        assert(pow_mod(psi, n, p) == p - 1);
        lemma_residue_congruent(w * (p - 1), p);
        assert(w * (p - 1) == -w + w * p) by (nonlinear_arith);
        crate::congruence::lemma_congruent_multiple(-w, w, p);
    } else {
        assert(h == 1);
    }
    // the readiness of the children
    lemma_fundamental_div_mod_converse(n as int, h as int, 2 * c, 0);
}

/// The convolution theorem at a node: the entry-wise product of the
/// transforms of `x` and `y` is the transform of their product modulo
/// `X^len - v`, where `v` is the value of the node.
pub proof fn lemma_convolution_at(x: Seq<u64>, y: Seq<u64>, idx: int, v: int, p: int, n: nat)
    requires
        2 <= p < 0x4000_0000_0000_0000,
        is_power_of_two(n),
        primitive_root(p, n) is Some,
        x.len() == y.len(),
        is_power_of_two(x.len()),
        is_reduced(x, p),
        is_reduced(y, p),
        node_ready(idx, x.len(), n),
        (idx + 1) * x.len() <= 2 * n,
        x.len() >= 2 ==> congruent(v, node_value(idx, p, n), p),
    ensures
        mul_seq(ntt(x, twiddles(p, n), idx, p), ntt(y, twiddles(p, n), idx, p), p) == ntt(
            wrapped_product(x, y, v, p),
            twiddles(p, n),
            idx,
            p,
        ),
    decreases x.len(),
{
    let tw = twiddles(p, n);
    let len = x.len();
    let wp = wrapped_product(x, y, v, p);
    lemma_wrapped_product_shape(x, y, v, p);
    if len < 2 {
        let f = wrap_terms(x, y, v, 0);
        assert(sum(f, 1) == sum(f, 0) + f(0));
        assert(mul_seq(x, y, p) =~= wp);
    } else {
        lemma_power_of_two_halves(len);
        let h = (len / 2) as int;
        assert(idx < n) by (nonlinear_arith)
            requires
                (idx + 1) * len <= 2 * n,
                len >= 2,
                idx >= 1,
        ;
        assert((2 * idx + 1) * h <= 2 * n && (2 * idx + 2) * h <= 2 * n) by (nonlinear_arith)
            requires
                (idx + 1) * len <= 2 * n,
                len == 2 * h,
                h >= 1,
                idx >= 1,
        ;
        let w = tw[idx] as int;
        lemma_children_ready(idx, len, p, n);
        lemma_butterflies_fold(x, w, p);
        lemma_butterflies_fold(y, w, p);
        lemma_butterflies_fold(wp, w, p);
        let lx = ntt_low(x, w, p);
        let ly = ntt_low(y, w, p);
        let hx = ntt_high(x, w, p);
        let hy = ntt_high(y, w, p);
        assert forall|j: int| 0 <= j < h implies (#[trigger] lx[j]) < p && (#[trigger] ly[j]) < p
            && (#[trigger] hx[j]) < p && (#[trigger] hy[j]) < p by {
            lemma_mod_bound(x[j] as int + mul_mod(x[j + h] as int, w, p), p);
            lemma_mod_bound(y[j] as int + mul_mod(y[j + h] as int, w, p), p);
            lemma_mod_bound(x[j] as int - mul_mod(x[j + h] as int, w, p), p);
            lemma_mod_bound(y[j] as int - mul_mod(y[j + h] as int, w, p), p);
        }
        // the values of the children
        let v0 = w;
        let v1 = -w;
        // c c == v for c = w and c = -w
        assert(congruent(w * w, v, p));
        assert((-w) * (-w) == w * w) by (nonlinear_arith);
        lemma_fold_product(x, y, v, w, v0, p);
        lemma_fold_product(x, y, v, -w, v1, p);
        lemma_convolution_at(lx, ly, 2 * idx, v0, p, n);
        lemma_convolution_at(hx, hy, 2 * idx + 1, v1, p, n);
        lemma_ntt_shape(lx, tw, 2 * idx, p);
        lemma_ntt_shape(ly, tw, 2 * idx, p);
        lemma_ntt_shape(hx, tw, 2 * idx + 1, p);
        lemma_ntt_shape(hy, tw, 2 * idx + 1, p);
        let nlx = ntt(lx, tw, 2 * idx, p);
        let nly = ntt(ly, tw, 2 * idx, p);
        let nhx = ntt(hx, tw, 2 * idx + 1, p);
        let nhy = ntt(hy, tw, 2 * idx + 1, p);
        assert(mul_seq(nlx + nhx, nly + nhy, p) =~= mul_seq(nlx, nly, p) + mul_seq(nhx, nhy, p));
    }
}

/// The convolution theorem: the entry-wise product of the forward
/// transforms of `x` and `y` is the forward transform of their negacyclic
/// product.
pub proof fn lemma_convolution(x: Seq<u64>, y: Seq<u64>, p: int, n: nat)
    requires
        2 <= p < 0x4000_0000_0000_0000,
        n >= 2,
        is_power_of_two(n),
        primitive_root(p, n) is Some,
        x.len() == n,
        y.len() == n,
        is_reduced(x, p),
        is_reduced(y, p),
    ensures
        mul_seq(forward_transform(x, p, n), forward_transform(y, p, n), p) == forward_transform(
            negacyclic_product(x, y, p),
            p,
            n,
        ),
{
    let psi = psi_of(p, n);
    lemma_power_of_two_halves(n);
    lemma_mod_self_0(n as int);
    lemma_mod_self_0((n / 2) as int);
    assert(twiddle_exponent(1, n) == n / 2);
    // the value of the root node is psi^n == -1
    lemma_least_generator(p, n, 2);
    assert(node_value(1, p, n) == pow_mod(psi, n, p));
    lemma_small_mod((p - 1) as nat, p as nat);
    crate::congruence::lemma_congruent_multiple(-1, 1, p);
    assert(congruent(-1, p - 1, p));
    lemma_convolution_at(x, y, 1, -1, p, n);
}

} // verus!

//! The forward transform is linear.

use crate::congruence::{
    congruent, lemma_congruent_add, lemma_congruent_mul, lemma_congruent_sub,
    lemma_residue_congruent,
};
use crate::ntt::{
    intt, intt_merge, lemma_ntt_shape, lemma_power_of_two_halves, ntt, ntt_high, ntt_low, half_of,
};
use crate::primes::is_power_of_two;
use crate::zq::{add_mod, is_reduced, mul_mod, sub_mod};
use vstd::arithmetic::div_mod::*;
use vstd::prelude::*;

verus! {

/// The entry-wise combination `a x + b y` modulo `p`.
pub open spec fn lincomb(x: Seq<u64>, y: Seq<u64>, a: int, b: int, p: int) -> Seq<u64> {
    Seq::new(x.len(), |j: int| ((a * (x[j] as int) + b * (y[j] as int)) % p) as u64)
}

/// The sequence of length `n` that holds `c` first and zeros after: the
/// coefficients of the constant polynomial `c`.
pub open spec fn constant_seq(c: u64, n: nat) -> Seq<u64> {
    Seq::new(
        n,
        |j: int|
            if j == 0 {
                c
            } else {
                0u64
            },
    )
}

/// The sequence of length `n` that holds `c` everywhere.
pub open spec fn repeated(c: u64, n: nat) -> Seq<u64> {
    Seq::new(n, |j: int| c)
}

/// A combination gives residues.
pub proof fn lemma_lincomb_reduced(x: Seq<u64>, y: Seq<u64>, a: int, b: int, p: int)
    requires
        2 <= p < 0x4000_0000_0000_0000,
    ensures
        is_reduced(lincomb(x, y, a, b, p), p),
        lincomb(x, y, a, b, p).len() == x.len(),
{
    assert forall|j: int| 0 <= j < x.len() implies (#[trigger] lincomb(x, y, a, b, p)[j]) < p by {
        lemma_mod_bound(a * (x[j] as int) + b * (y[j] as int), p);
    }
}

/// One butterfly of a combination is the combination of the butterflies.
pub proof fn lemma_butterfly_linear(
    xj: int,
    xh: int,
    yj: int,
    yh: int,
    a: int,
    b: int,
    w: int,
    p: int,
)
    requires
        p > 0,
    ensures
        add_mod((a * xj + b * yj) % p, mul_mod((a * xh + b * yh) % p, w, p), p) == (a * add_mod(
            xj,
            mul_mod(xh, w, p),
            p,
        ) + b * add_mod(yj, mul_mod(yh, w, p), p)) % p,
        sub_mod((a * xj + b * yj) % p, mul_mod((a * xh + b * yh) % p, w, p), p) == (a * sub_mod(
            xj,
            mul_mod(xh, w, p),
            p,
        ) + b * sub_mod(yj, mul_mod(yh, w, p), p)) % p,
{
    let lj = (a * xj + b * yj) % p;
    let lh = (a * xh + b * yh) % p;
    let tx = mul_mod(xh, w, p);
    let ty = mul_mod(yh, w, p);
    lemma_residue_congruent(a * xj + b * yj, p);
    lemma_residue_congruent(a * xh + b * yh, p);
    lemma_residue_congruent(lh * w, p);
    lemma_residue_congruent(xh * w, p);
    lemma_residue_congruent(yh * w, p);
    // lh * w == (a xh + b yh) * w
    lemma_congruent_mul(lh, w, a * xh + b * yh, w, p);
    assert(congruent(mul_mod(lh, w, p), (a * xh + b * yh) * w, p));
    // sums and differences on the left
    lemma_congruent_add(lj, mul_mod(lh, w, p), a * xj + b * yj, (a * xh + b * yh) * w, p);
    lemma_congruent_sub(lj, mul_mod(lh, w, p), a * xj + b * yj, (a * xh + b * yh) * w, p);
    // on the right
    lemma_residue_congruent(xj + tx, p);
    lemma_residue_congruent(yj + ty, p);
    lemma_residue_congruent(xj - tx, p);
    lemma_residue_congruent(yj - ty, p);
    lemma_congruent_add(xj, tx, xj, xh * w, p);
    lemma_congruent_add(yj, ty, yj, yh * w, p);
    lemma_congruent_sub(xj, tx, xj, xh * w, p);
    lemma_congruent_sub(yj, ty, yj, yh * w, p);
    lemma_congruent_mul(a, add_mod(xj, tx, p), a, xj + xh * w, p);
    lemma_congruent_mul(b, add_mod(yj, ty, p), b, yj + yh * w, p);
    lemma_congruent_mul(a, sub_mod(xj, tx, p), a, xj - xh * w, p);
    lemma_congruent_mul(b, sub_mod(yj, ty, p), b, yj - yh * w, p);
    lemma_congruent_add(
        a * add_mod(xj, tx, p),
        b * add_mod(yj, ty, p),
        a * (xj + xh * w),
        b * (yj + yh * w),
        p,
    );
    lemma_congruent_add(
        a * sub_mod(xj, tx, p),
        b * sub_mod(yj, ty, p),
        a * (xj - xh * w),
        b * (yj - yh * w),
        p,
    );
    assert((a * xh + b * yh) * w == (a * xh) * w + (b * yh) * w) by (nonlinear_arith);
    assert((a * xh) * w == a * (xh * w)) by (nonlinear_arith);
    assert((b * yh) * w == b * (yh * w)) by (nonlinear_arith);
    assert(a * (xj + xh * w) == a * xj + a * (xh * w)) by (nonlinear_arith);
    assert(b * (yj + yh * w) == b * yj + b * (yh * w)) by (nonlinear_arith);
    assert(a * (xj - xh * w) == a * xj - a * (xh * w)) by (nonlinear_arith);
    assert(b * (yj - yh * w) == b * yj - b * (yh * w)) by (nonlinear_arith);
    assert((a * xj + b * yj) + (a * xh + b * yh) * w == a * (xj + xh * w) + b * (yj + yh * w));
    assert((a * xj + b * yj) - (a * xh + b * yh) * w == a * (xj - xh * w) + b * (yj - yh * w));
}

/// The forward transform of a combination is the combination of the
/// forward transforms.
pub proof fn lemma_ntt_linear(
    x: Seq<u64>,
    y: Seq<u64>,
    a: int,
    b: int,
    tw: Seq<u64>,
    idx: int,
    p: int,
)
    requires
        2 <= p < 0x4000_0000_0000_0000,
        x.len() == y.len(),
        is_power_of_two(x.len()),
        is_reduced(x, p),
        is_reduced(y, p),
    ensures
        ntt(lincomb(x, y, a, b, p), tw, idx, p) == lincomb(
            ntt(x, tw, idx, p),
            ntt(y, tw, idx, p),
            a,
            b,
            p,
        ),
    decreases x.len(),
{
    let l = lincomb(x, y, a, b, p);
    lemma_ntt_shape(x, tw, idx, p);
    lemma_ntt_shape(y, tw, idx, p);
    if x.len() < 2 {
        assert(ntt(l, tw, idx, p) =~= lincomb(ntt(x, tw, idx, p), ntt(y, tw, idx, p), a, b, p));
    } else {
        lemma_power_of_two_halves(x.len());
        let h = (x.len() / 2) as int;
        let w = tw[idx] as int;
        let lx = ntt_low(x, w, p);
        let ly = ntt_low(y, w, p);
        let hx = ntt_high(x, w, p);
        let hy = ntt_high(y, w, p);
        assert forall|j: int| 0 <= j < h implies (#[trigger] lx[j]) < p && (#[trigger] ly[j]) < p
            && (#[trigger] hx[j]) < p && (#[trigger] hy[j]) < p by {
            lemma_mod_bound(x[j] as int + mul_mod(x[j + h] as int, w, p), p);
            lemma_mod_bound(y[j] as int + mul_mod(y[j + h] as int, w, p), p);
            lemma_mod_bound(x[j] as int - mul_mod(x[j + h] as int, w, p), p);
            lemma_mod_bound(y[j] as int - mul_mod(y[j + h] as int, w, p), p);
        }
        let ll = ntt_low(l, w, p);
        let lh = ntt_high(l, w, p);
        assert forall|j: int| 0 <= j < h implies ll[j] == lincomb(lx, ly, a, b, p)[j] && lh[j]
            == lincomb(hx, hy, a, b, p)[j] by {
            lemma_butterfly_linear(
                x[j] as int,
                x[j + h] as int,
                y[j] as int,
                y[j + h] as int,
                a,
                b,
                w,
                p,
            );
            lemma_mod_bound(a * (x[j] as int) + b * (y[j] as int), p);
            lemma_mod_bound(a * (x[j + h] as int) + b * (y[j + h] as int), p);
        }
        assert(ll =~= lincomb(lx, ly, a, b, p));
        assert(lh =~= lincomb(hx, hy, a, b, p));
        lemma_ntt_linear(lx, ly, a, b, tw, 2 * idx, p);
        lemma_ntt_linear(hx, hy, a, b, tw, 2 * idx + 1, p);
        lemma_ntt_shape(lx, tw, 2 * idx, p);
        lemma_ntt_shape(ly, tw, 2 * idx, p);
        lemma_ntt_shape(hx, tw, 2 * idx + 1, p);
        lemma_ntt_shape(hy, tw, 2 * idx + 1, p);
        let nlx = ntt(lx, tw, 2 * idx, p);
        let nly = ntt(ly, tw, 2 * idx, p);
        let nhx = ntt(hx, tw, 2 * idx + 1, p);
        let nhy = ntt(hy, tw, 2 * idx + 1, p);
        assert(lincomb(nlx, nly, a, b, p) + lincomb(nhx, nhy, a, b, p) =~= lincomb(
            nlx + nhx,
            nly + nhy,
            a,
            b,
            p,
        ));
    }
}

/// The forward transform of a constant polynomial holds the constant
/// everywhere.
pub proof fn lemma_ntt_constant(c: u64, n: nat, tw: Seq<u64>, idx: int, p: int)
    requires
        2 <= p,
        c < p,
        n >= 1,
        is_power_of_two(n),
    ensures
        ntt(constant_seq(c, n), tw, idx, p) == repeated(c, n),
    decreases n,
{
    let x = constant_seq(c, n);
    if n < 2 {
        assert(ntt(x, tw, idx, p) =~= repeated(c, n));
    } else {
        lemma_power_of_two_halves(n);
        let h = (n / 2) as int;
        let w = tw[idx] as int;
        assert forall|j: int| 0 <= j < h implies ntt_low(x, w, p)[j] == constant_seq(
            c,
            h as nat,
        )[j] && ntt_high(x, w, p)[j] == constant_seq(c, h as nat)[j] by {
            assert(x[j + h] == 0);
            assert(0 * w == 0);
            lemma_small_mod(0, p as nat);
            lemma_small_mod(x[j] as nat, p as nat);
        }
        assert(ntt_low(x, w, p) =~= constant_seq(c, h as nat));
        assert(ntt_high(x, w, p) =~= constant_seq(c, h as nat));
        lemma_ntt_constant(c, h as nat, tw, 2 * idx, p);
        lemma_ntt_constant(c, h as nat, tw, 2 * idx + 1, p);
        assert(repeated(c, h as nat) + repeated(c, h as nat) =~= repeated(c, n));
    }
}

/// The backward transform of zeros is zeros.
pub proof fn lemma_intt_zero(n: nat, twi: Seq<u64>, idx: int, p: int)
    requires
        2 <= p,
        n >= 1,
        is_power_of_two(n),
    ensures
        intt(repeated(0, n), twi, idx, p) == repeated(0, n),
    decreases n,
{
    let b = repeated(0, n);
    if n < 2 {
    } else {
        lemma_power_of_two_halves(n);
        let h = (n / 2) as int;
        assert(b.subrange(0, h) =~= repeated(0, h as nat));
        assert(b.subrange(h, 2 * h) =~= repeated(0, h as nat));
        lemma_intt_zero(h as nat, twi, 2 * idx, p);
        lemma_intt_zero(h as nat, twi, 2 * idx + 1, p);
        let z = repeated(0, h as nat);
        let r = intt_merge(z, z, twi[idx] as int, p);
        assert forall|j: int| 0 <= j < n implies r[j] == 0 by {
            lemma_small_mod(0, p as nat);
            assert(0 * half_of(p) == 0);
            assert(0 * (twi[idx] as int) == 0);
        }
        assert(r =~= b);
    }
}

} // verus!

//! Algebra of rows of residues: combinations, and how the transforms act
//! on them.

use crate::congruence::{lemma_congruent_add, lemma_residue_congruent};
use crate::ntt::{lemma_backward_forward, lemma_ntt_shape, lemma_odd, primitive_root, twiddles};
use crate::ntt_linear::{
    constant_seq, lemma_lincomb_reduced, lemma_ntt_constant, lemma_ntt_linear, lincomb, repeated,
};
use crate::primes::{is_power_of_two, supports_ntt};
use crate::rq::{
    add_rows, backward_rows, constant_rows, forward_rows, mul_rows, neg_rows, sub_rows, valid_ring,
    well_shaped, zero_rows,
};
use crate::zq::{add_mod, add_seq, is_reduced, mul_mod, mul_seq, neg_seq, sub_mod, sub_seq};
use vstd::arithmetic::div_mod::*;
use vstd::prelude::*;

verus! {

/// The row-wise combination `a x + b y`.
pub open spec fn lincomb_rows(
    x: Seq<Seq<u64>>,
    y: Seq<Seq<u64>>,
    a: int,
    b: int,
    moduli: Seq<u64>,
) -> Seq<Seq<u64>> {
    Seq::new(x.len(), |i: int| lincomb(x[i], y[i], a, b, moduli[i] as int))
}

/// Each row times the entry of `c` at its index.
pub open spec fn scaled_by(x: Seq<Seq<u64>>, c: Seq<u64>, moduli: Seq<u64>) -> Seq<Seq<u64>> {
    Seq::new(x.len(), |i: int| lincomb(x[i], x[i], c[i] as int, 0, moduli[i] as int))
}

/// The moduli of a valid ring are in range and odd, and the degree is a
/// power of two.
pub proof fn lemma_valid_ring(moduli: Seq<u64>, degree: nat, i: int)
    requires
        valid_ring(moduli, degree),
        0 <= i < moduli.len(),
    ensures
        2 <= moduli[i] < 0x4000_0000_0000_0000,
        moduli[i] % 2 == 1,
        is_power_of_two(degree),
        degree >= 8,
        primitive_root(moduli[i] as int, degree) is Some,
{
    assert(supports_ntt(moduli[i] as int, degree));
    lemma_odd(moduli[i] as int, degree);
}

/// The sum of rows is their combination with the coefficients 1 and 1.
pub proof fn lemma_add_rows_is_lincomb(x: Seq<Seq<u64>>, y: Seq<Seq<u64>>, moduli: Seq<u64>)
    requires
        x.len() == y.len(),
    ensures
        add_rows(x, y, moduli) == lincomb_rows(x, y, 1, 1, moduli),
{
    assert forall|i: int| 0 <= i < x.len() implies add_rows(x, y, moduli)[i] == lincomb_rows(
        x,
        y,
        1,
        1,
        moduli,
    )[i] by {
        assert(add_seq(x[i], y[i], moduli[i] as int) =~= lincomb(
            x[i],
            y[i],
            1,
            1,
            moduli[i] as int,
        )) by {
            assert forall|j: int| 0 <= j < x[i].len() implies add_mod(
                x[i][j] as int,
                y[i][j] as int,
                moduli[i] as int,
            ) == (1 * (x[i][j] as int) + 1 * (y[i][j] as int)) % (moduli[i] as int) by {}
        }
    }
    assert(add_rows(x, y, moduli) =~= lincomb_rows(x, y, 1, 1, moduli));
}

/// The difference of rows is their combination with the coefficients 1
/// and -1.
pub proof fn lemma_sub_rows_is_lincomb(x: Seq<Seq<u64>>, y: Seq<Seq<u64>>, moduli: Seq<u64>)
    requires
        x.len() == y.len(),
    ensures
        sub_rows(x, y, moduli) == lincomb_rows(x, y, 1, -1, moduli),
{
    assert forall|i: int| 0 <= i < x.len() implies sub_rows(x, y, moduli)[i] == lincomb_rows(
        x,
        y,
        1,
        -1,
        moduli,
    )[i] by {
        assert(sub_seq(x[i], y[i], moduli[i] as int) =~= lincomb(
            x[i],
            y[i],
            1,
            -1,
            moduli[i] as int,
        )) by {
            assert forall|j: int| 0 <= j < x[i].len() implies sub_mod(
                x[i][j] as int,
                y[i][j] as int,
                moduli[i] as int,
            ) == (1 * (x[i][j] as int) + (-1) * (y[i][j] as int)) % (moduli[i] as int) by {}
        }
    }
    assert(sub_rows(x, y, moduli) =~= lincomb_rows(x, y, 1, -1, moduli));
}

/// The opposite of rows is their combination with themselves with the
/// coefficients -1 and 0.
pub proof fn lemma_neg_rows_is_lincomb(x: Seq<Seq<u64>>, moduli: Seq<u64>)
    ensures
        neg_rows(x, moduli) == lincomb_rows(x, x, -1, 0, moduli),
{
    assert forall|i: int| 0 <= i < x.len() implies neg_rows(x, moduli)[i] == lincomb_rows(
        x,
        x,
        -1,
        0,
        moduli,
    )[i] by {
        assert(neg_seq(x[i], moduli[i] as int) =~= lincomb(x[i], x[i], -1, 0, moduli[i] as int))
            by {
            assert forall|j: int| 0 <= j < x[i].len() implies crate::zq::neg_mod(
                x[i][j] as int,
                moduli[i] as int,
            ) == ((-1) * (x[i][j] as int) + 0 * (x[i][j] as int)) % (moduli[i] as int) by {}
        }
    }
    assert(neg_rows(x, moduli) =~= lincomb_rows(x, x, -1, 0, moduli));
}

/// A combination of rows has their shape.
pub proof fn lemma_lincomb_rows_shape(
    x: Seq<Seq<u64>>,
    y: Seq<Seq<u64>>,
    a: int,
    b: int,
    moduli: Seq<u64>,
    degree: nat,
)
    requires
        valid_ring(moduli, degree),
        well_shaped(x, moduli, degree),
    ensures
        well_shaped(lincomb_rows(x, y, a, b, moduli), moduli, degree),
{
    let l = lincomb_rows(x, y, a, b, moduli);
    assert forall|i: int| 0 <= i < l.len() implies (#[trigger] l[i]).len() == degree && is_reduced(
        l[i],
        moduli[i] as int,
    ) by {
        lemma_valid_ring(moduli, degree, i);
        lemma_lincomb_reduced(x[i], y[i], a, b, moduli[i] as int);
    }
}

/// The forward transform of rows has their shape.
pub proof fn lemma_forward_rows_shape(x: Seq<Seq<u64>>, moduli: Seq<u64>, degree: nat)
    requires
        valid_ring(moduli, degree),
        well_shaped(x, moduli, degree),
    ensures
        well_shaped(forward_rows(x, moduli, degree), moduli, degree),
{
    let f = forward_rows(x, moduli, degree);
    assert forall|i: int| 0 <= i < f.len() implies (#[trigger] f[i]).len() == degree && is_reduced(
        f[i],
        moduli[i] as int,
    ) by {
        lemma_valid_ring(moduli, degree, i);
        lemma_ntt_shape(x[i], twiddles(moduli[i] as int, degree), 1, moduli[i] as int);
    }
}

/// The forward transform of a combination of rows is the combination of
/// the forward transforms.
pub proof fn lemma_forward_rows_linear(
    x: Seq<Seq<u64>>,
    y: Seq<Seq<u64>>,
    a: int,
    b: int,
    moduli: Seq<u64>,
    degree: nat,
)
    requires
        valid_ring(moduli, degree),
        well_shaped(x, moduli, degree),
        well_shaped(y, moduli, degree),
    ensures
        forward_rows(lincomb_rows(x, y, a, b, moduli), moduli, degree) == lincomb_rows(
            forward_rows(x, moduli, degree),
            forward_rows(y, moduli, degree),
            a,
            b,
            moduli,
        ),
{
    let left = forward_rows(lincomb_rows(x, y, a, b, moduli), moduli, degree);
    let right = lincomb_rows(
        forward_rows(x, moduli, degree),
        forward_rows(y, moduli, degree),
        a,
        b,
        moduli,
    );
    assert forall|i: int| 0 <= i < x.len() implies left[i] == right[i] by {
        lemma_valid_ring(moduli, degree, i);
        lemma_ntt_linear(
            x[i],
            y[i],
            a,
            b,
            twiddles(moduli[i] as int, degree),
            1,
            moduli[i] as int,
        );
    }
    assert(left =~= right);
}

/// The backward transform undoes the forward transform, row by row.
pub proof fn lemma_backward_forward_rows(x: Seq<Seq<u64>>, moduli: Seq<u64>, degree: nat)
    requires
        valid_ring(moduli, degree),
        well_shaped(x, moduli, degree),
    ensures
        backward_rows(forward_rows(x, moduli, degree), moduli, degree) == x,
{
    let f = forward_rows(x, moduli, degree);
    assert forall|i: int| 0 <= i < x.len() implies backward_rows(f, moduli, degree)[i] == x[i] by {
        lemma_valid_ring(moduli, degree, i);
        lemma_backward_forward(x[i], moduli[i] as int, degree);
    }
    assert(backward_rows(f, moduli, degree) =~= x);
}

/// The product of transformed rows by the transform of a constant is the
/// transform of the rows times the residues of the constant.
pub proof fn lemma_mul_by_constant(
    x: Seq<Seq<u64>>,
    c: nat,
    moduli: Seq<u64>,
    degree: nat,
)
    requires
        valid_ring(moduli, degree),
        well_shaped(x, moduli, degree),
    ensures
        mul_rows(
            forward_rows(x, moduli, degree),
            forward_rows(constant_rows(c, moduli, degree), moduli, degree),
            moduli,
        ) == forward_rows(
            scaled_by(x, crate::rns::project_value(moduli, c), moduli),
            moduli,
            degree,
        ),
{
    let fx = forward_rows(x, moduli, degree);
    let fc = forward_rows(constant_rows(c, moduli, degree), moduli, degree);
    let rests = crate::rns::project_value(moduli, c);
    let left = mul_rows(fx, fc, moduli);
    let right = forward_rows(scaled_by(x, rests, moduli), moduli, degree);
    assert forall|i: int| 0 <= i < x.len() implies left[i] == right[i] by {
        lemma_valid_ring(moduli, degree, i);
        let p = moduli[i] as int;
        let tw = twiddles(p, degree);
        let ci = rests[i];
        lemma_mod_bound(c as int, p);
        assert(constant_rows(c, moduli, degree)[i] =~= constant_seq(ci, degree));
        lemma_ntt_constant(ci, degree, tw, 1, p);
        lemma_ntt_linear(x[i], x[i], ci as int, 0, tw, 1, p);
        lemma_ntt_shape(x[i], tw, 1, p);
        let nx = crate::ntt::ntt(x[i], tw, 1, p);
        assert(mul_seq(nx, repeated(ci, degree), p) =~= lincomb(nx, nx, ci as int, 0, p)) by {
            assert forall|j: int| 0 <= j < nx.len() implies mul_mod(
                nx[j] as int,
                ci as int,
                p,
            ) == ((ci as int) * (nx[j] as int) + 0 * (nx[j] as int)) % p by {
                assert((nx[j] as int) * (ci as int) == (ci as int) * (nx[j] as int))
                    by (nonlinear_arith);
            }
        }
    }
    assert(left =~= right);
}

/// Adding to `p` the rows `x - p + m` gives `x + m`.
pub proof fn lemma_cancel_rows(
    p: Seq<Seq<u64>>,
    x: Seq<Seq<u64>>,
    m: Seq<Seq<u64>>,
    moduli: Seq<u64>,
    degree: nat,
)
    requires
        valid_ring(moduli, degree),
        well_shaped(p, moduli, degree),
        well_shaped(x, moduli, degree),
        well_shaped(m, moduli, degree),
    ensures
        add_rows(p, add_rows(sub_rows(x, p, moduli), m, moduli), moduli) == add_rows(x, m, moduli),
{
    let left = add_rows(p, add_rows(sub_rows(x, p, moduli), m, moduli), moduli);
    let right = add_rows(x, m, moduli);
    assert forall|i: int| 0 <= i < p.len() implies left[i] =~= right[i] by {
        lemma_valid_ring(moduli, degree, i);
        let q = moduli[i] as int;
        assert forall|j: int| 0 <= j < degree implies left[i][j] == right[i][j] by {
            let pv = p[i][j] as int;
            let xv = x[i][j] as int;
            let mv = m[i][j] as int;
            lemma_residue_congruent(xv - pv, q);
            lemma_residue_congruent(sub_mod(xv, pv, q) + mv, q);
            lemma_congruent_add(sub_mod(xv, pv, q), mv, xv - pv, mv, q);
            lemma_congruent_add(pv, add_mod(sub_mod(xv, pv, q), mv, q), pv, xv - pv + mv, q);
        }
    }
    assert(left =~= right);
}

/// Zero rows added to rows of the ring leave them as they are.
pub proof fn lemma_zero_rows_left(x: Seq<Seq<u64>>, moduli: Seq<u64>, n: nat)
    requires
        valid_ring(moduli, n),
        well_shaped(x, moduli, n),
    ensures
        add_rows(zero_rows(moduli.len(), n), x, moduli) == x,
{
    let sum = add_rows(zero_rows(moduli.len(), n), x, moduli);
    assert forall|i: int| 0 <= i < moduli.len() implies sum[i] =~= x[i] by {
        lemma_valid_ring(moduli, n, i);
        assert forall|j: int| 0 <= j < n implies sum[i][j] == x[i][j] by {
            lemma_small_mod(x[i][j] as nat, moduli[i] as nat);
        }
    }
    assert(sum =~= x);
}

} // verus!

//! Converters between rings, in terms of the integers that residues stand
//! for: carrying a ring element into a larger ring keeps its centered
//! coefficients, and bringing one down scales and rounds them.

use crate::integer_ring::{
    centered_coefficients, lemma_centered_of_residues, lemma_residues_shape, residues,
};
use crate::rns::product_of;
use crate::rows_algebra::lemma_backward_forward_rows;
use crate::rq::{backward_rows, forward_rows, valid_ring, well_shaped};
use crate::scaler::{rounded, scaled_rows};
use vstd::prelude::*;

verus! {

/// Each coefficient times `num / den`, rounded to the nearest integer.
pub open spec fn rounded_all(x: Seq<int>, num: nat, den: nat) -> Seq<int> {
    Seq::new(x.len(), |j: int| rounded(x[j], num, den))
}

/// Scaling rows from one basis to another gives the residues of the
/// centered coefficients of the rows, scaled and rounded.
pub proof fn lemma_scaled_rows(
    rows: Seq<Seq<u64>>,
    from: Seq<u64>,
    to: Seq<u64>,
    n: nat,
    num: nat,
    den: nat,
)
    ensures
        scaled_rows(rows, from, to, n, num, den) == residues(
            rounded_all(centered_coefficients(rows, from, n), num, den),
            to,
        ),
{
    let left = scaled_rows(rows, from, to, n, num, den);
    let right = residues(rounded_all(centered_coefficients(rows, from, n), num, den), to);
    assert forall|i: int| 0 <= i < to.len() implies left[i] =~= right[i] by {}
    assert(left =~= right);
}

/// Scaling by the factor one keeps the centered coefficients.
pub proof fn lemma_rounded_one(x: Seq<int>)
    ensures
        rounded_all(x, 1, 1) == x,
{
    assert forall|j: int| 0 <= j < x.len() implies rounded_all(x, 1, 1)[j] == x[j] by {
        assert(2 * x[j] * 1 + 1 == 2 * x[j] + 1);
        assert((2 * x[j] + 1) / 2 == x[j]);
    }
    assert(rounded_all(x, 1, 1) =~= x);
}

/// Carrying a transformed ring element into another ring by the factor
/// one gives the transform of the residues of its centered coefficients.
pub proof fn lemma_carried(x: Seq<Seq<u64>>, from: Seq<u64>, to: Seq<u64>, n: nat)
    requires
        valid_ring(from, n),
        well_shaped(x, from, n),
    ensures
        forward_rows(scaled_rows(backward_rows(x, from, n), from, to, n, 1, 1), to, n)
            == forward_rows(
            residues(centered_coefficients(backward_rows(x, from, n), from, n), to),
            to,
            n,
        ),
{
    let b = backward_rows(x, from, n);
    lemma_scaled_rows(b, from, to, n, 1, 1);
    lemma_rounded_one(centered_coefficients(b, from, n));
}

/// Bringing down the transform of the residues of a polynomial whose
/// coefficients are less than half the product of the moduli in absolute
/// value gives the residues of its coefficients, scaled and rounded.
pub proof fn lemma_lowered(
    t: Seq<int>,
    from: Seq<u64>,
    to: Seq<u64>,
    n: nat,
    num: nat,
    den: nat,
)
    requires
        valid_ring(from, n),
        t.len() == n,
        forall|j: int|
            0 <= j < n ==> -(product_of(from) as int) <= 2 * (#[trigger] t[j]) < product_of(from),
    ensures
        scaled_rows(
            backward_rows(forward_rows(residues(t, from), from, n), from, n),
            from,
            to,
            n,
            num,
            den,
        ) == residues(rounded_all(t, num, den), to),
{
    let r = residues(t, from);
    lemma_residues_shape(t, from, n);
    lemma_backward_forward_rows(r, from, n);
    lemma_scaled_rows(r, from, to, n, num, den);
    lemma_centered_of_residues(t, from, n);
}

} // verus!

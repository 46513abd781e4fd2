//! One-dimensional views of residues, held by `ndarray::ArrayView1`.
//!
//! Nothing here is proved: each function states what `ndarray` does, over
//! the sequence of the entries that a view shows.

use ndarray::ArrayView1;
use vstd::prelude::*;

verus! {

/// A view of a sequence of residues: an `ArrayView1` of words.
#[verifier::external_body]
pub struct ResidueView<'a>(pub ArrayView1<'a, u64>);

/// The entries that a view shows, in their order.
pub uninterp spec fn view_entries(v: ResidueView) -> Seq<u64>;

/// `ArrayView1::from` on a vector of words: the view shows the entries of
/// the vector. It panics only for elements without size, which words are
/// not.
#[verifier::external_body]
pub(crate) fn view_of<'a>(v: &'a Vec<u64>) -> (r: ResidueView<'a>)
    ensures
        view_entries(r) == v@,
{
    ResidueView(ArrayView1::from(v))
}

/// `Index::index` of a one-dimensional view: the entry at `i`. It panics
/// where `i` is not below the length, which `requires` leaves out.
#[verifier::external_body]
pub(crate) fn view_at(v: &ResidueView, i: usize) -> (r: u64)
    requires
        i < view_entries(*v).len(),
    ensures
        r == view_entries(*v)[i as int],
{
    v.0[i]
}

} // verus!

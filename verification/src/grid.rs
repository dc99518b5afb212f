//! Read access to the dense `ndarray` inputs.
//!
//! The three inputs arrive as `ndarray` arrays: a matrix of score bit patterns, a
//! matrix of raw target indices and a vector of offsets. This module is the only
//! place that touches them. What an array holds is given a name, and each accessor
//! states over that name what `ndarray` returns; none of it is proved here.

use ndarray::{ArrayRef, ArrayRef1, ArrayRef2, Dim};
use vstd::prelude::*;

verus! {

#[verifier::external_type_specification]
#[verifier::external_body]
#[verifier::reject_recursive_types(A)]
#[verifier::reject_recursive_types(D)]
pub struct ExArrayRef<A, D>(ArrayRef<A, D>);

#[verifier::external_type_specification]
#[verifier::external_body]
#[verifier::reject_recursive_types(I)]
pub struct ExDim<I: ?Sized>(Dim<I>);

/// The rows of a matrix of raw target indices, top to bottom, each left to right.
pub uninterp spec fn index_rows(m: &ArrayRef2<i64>) -> Seq<Seq<i64>>;

/// The number of columns of a matrix of raw target indices.
pub uninterp spec fn index_width(m: &ArrayRef2<i64>) -> nat;

/// The rows of a matrix of score bit patterns, top to bottom, each left to right.
pub uninterp spec fn score_rows(m: &ArrayRef2<u32>) -> Seq<Seq<u32>>;

/// The number of columns of a matrix of score bit patterns.
pub uninterp spec fn score_width(m: &ArrayRef2<u32>) -> nat;

/// The entries of a vector of offsets, first to last.
pub uninterp spec fn offset_seq(a: &ArrayRef1<i64>) -> Seq<i64>;

/// `ndarray`'s `nrows` on a matrix of raw indices: the length of its first axis.
#[verifier::external_body]
pub(crate) fn index_nrows(m: &ArrayRef2<i64>) -> (n: usize)
    ensures
        n == index_rows(m).len(),
{
    m.nrows()
}

/// `ndarray`'s `ncols` on a matrix of raw indices: the length of its second axis,
/// which is the length of every row.
#[verifier::external_body]
pub(crate) fn index_ncols(m: &ArrayRef2<i64>) -> (n: usize)
    ensures
        n == index_width(m),
        forall|r: int| 0 <= r < index_rows(m).len() ==> (#[trigger] index_rows(m)[r]).len() == n,
{
    m.ncols()
}

/// `ndarray`'s indexing of a matrix of raw indices by `[row, column]`. It panics
/// outside the shape, so both coordinates are required to lie inside it.
#[verifier::external_body]
pub(crate) fn index_at(m: &ArrayRef2<i64>, r: usize, c: usize) -> (v: i64)
    requires
        r < index_rows(m).len(),
        c < index_width(m),
    ensures
        v == index_rows(m)[r as int][c as int],
{
    m[[r, c]]
}

/// `ndarray`'s `nrows` on a matrix of scores: the length of its first axis.
#[verifier::external_body]
pub(crate) fn score_nrows(m: &ArrayRef2<u32>) -> (n: usize)
    ensures
        n == score_rows(m).len(),
{
    m.nrows()
}

/// `ndarray`'s `ncols` on a matrix of scores: the length of its second axis,
/// which is the length of every row.
#[verifier::external_body]
pub(crate) fn score_ncols(m: &ArrayRef2<u32>) -> (n: usize)
    ensures
        n == score_width(m),
        forall|r: int| 0 <= r < score_rows(m).len() ==> (#[trigger] score_rows(m)[r]).len() == n,
{
    m.ncols()
}

/// `ndarray`'s indexing of a matrix of scores by `[row, column]`. It panics outside
/// the shape, so both coordinates are required to lie inside it.
#[verifier::external_body]
pub(crate) fn score_at(m: &ArrayRef2<u32>, r: usize, c: usize) -> (v: u32)
    requires
        r < score_rows(m).len(),
        c < score_width(m),
    ensures
        v == score_rows(m)[r as int][c as int],
{
    m[[r, c]]
}

/// `ndarray`'s `len` on a vector of offsets: the number of its entries.
#[verifier::external_body]
pub(crate) fn offsets_len(a: &ArrayRef1<i64>) -> (n: usize)
    ensures
        n == offset_seq(a).len(),
{
    a.len()
}

/// `ndarray`'s indexing of a vector of offsets. It panics past the end, so the
/// position is required to lie before it.
#[verifier::external_body]
pub(crate) fn offset_at(a: &ArrayRef1<i64>, i: usize) -> (v: i64)
    requires
        i < offset_seq(a).len(),
    ensures
        v == offset_seq(a)[i as int],
{
    a[i]
}

} // verus!

//! The trace as the dense row-major matrix that the prover takes.
//!
//! The matrix type belongs to `p3_matrix`. The verifier does not look
//! inside it: what a matrix holds is named by [`matrix_values`] and
//! [`matrix_width`], and the one function that makes a matrix is trusted to
//! do what its contract says.

use p3_matrix::dense::{DenseMatrix, RowMajorMatrix};
use vstd::prelude::*;

verus! {

/// `p3_matrix::dense::DenseMatrix`, declared so that it can be named in
/// signatures. Its fields are not read here.
#[verifier::external_type_specification]
#[verifier::external_body]
#[verifier::reject_recursive_types(T)]
#[verifier::reject_recursive_types(V)]
pub struct ExDenseMatrix<T, V>(DenseMatrix<T, V>);

/// The cells of a matrix, row after row: its field `values`.
pub uninterp spec fn matrix_values(m: RowMajorMatrix<u64>) -> Seq<u64>;

/// The number of columns of a matrix: its field `width`.
pub uninterp spec fn matrix_width(m: RowMajorMatrix<u64>) -> nat;

/// `RowMajorMatrix::new`: the matrix with the given cells and number of
/// columns.
///
/// Not proved here. The function stores the vector and the width as they
/// are given; in a debug build it panics unless the width is zero or
/// divides the number of cells, which the precondition rules out.
#[verifier::external_body]
pub(crate) fn new_matrix(values: Vec<u64>, width: usize) -> (m: RowMajorMatrix<u64>)
    requires
        width == 0 || values@.len() % (width as nat) == 0,
    ensures
        matrix_values(m) == values@,
        matrix_width(m) == width,
{
    RowMajorMatrix::new(values, width)
}

} // verus!

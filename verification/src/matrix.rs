//! Matrices and vectors over the field. Both are ndarray arrays of
//! `ark_bls12_381::Fq`; what they hold is known to the proofs through
//! [`matrix_rows`], [`matrix_width`] and [`vector_entries`].

use crate::field::{all_wf, values, FieldElem};
use crate::linalg::MatrixView;
use ark_bls12_381::Fq;
use ark_ff::{BigInt, PrimeField};
use ndarray::{Array1, Array2};
use vstd::prelude::*;

verus! {

/// A dense matrix over the field, held as an `Array2<Fq>`.
#[verifier::external_body]
#[derive(Debug)]
pub struct Matrix {
    inner: Array2<Fq>,
}

/// A vector over the field, held as an `Array1<Fq>`.
#[verifier::external_body]
#[derive(Debug)]
pub struct Vector {
    inner: Array1<Fq>,
}

/// The rows of a matrix, top to bottom, each entry as the integer in `0..q`
/// that it stands for.
pub uninterp spec fn matrix_rows(m: Matrix) -> Seq<Seq<nat>>;

/// The number of columns of a matrix, which its rows do not tell when there
/// are none.
pub uninterp spec fn matrix_width(m: Matrix) -> nat;

/// The entries of a vector, each as the integer in `0..q` that it stands for.
pub uninterp spec fn vector_entries(v: Vector) -> Seq<nat>;

/// The grid of integers that a vector of rows stands for.
pub open spec fn grid(rows: Seq<Vec<FieldElem>>) -> Seq<Seq<nat>> {
    Seq::new(rows.len(), |i: int| values(rows[i]@))
}

impl View for Matrix {
    type V = MatrixView;

    open spec fn view(&self) -> MatrixView {
        MatrixView { rows: matrix_rows(*self), width: matrix_width(*self) }
    }
}

impl View for Vector {
    type V = Seq<nat>;

    open spec fn view(&self) -> Seq<nat> {
        vector_entries(*self)
    }
}

impl Matrix {
    /// Every row has as many entries as the matrix is wide, and every entry
    /// lies in the field.
    pub open spec fn wf(self) -> bool {
        self@.well_formed()
    }

    /// The matrix of width `cols` with the given rows, or `None` where some
    /// row is not `cols` long or `cols` is beyond what an array can be
    /// indexed by.
    pub fn from_rows(rows: &Vec<Vec<FieldElem>>, cols: usize) -> (r: Option<Matrix>)
        requires
            forall|i: int| 0 <= i < rows@.len() ==> all_wf(#[trigger] rows@[i]@),
        ensures
            r is Some <==> cols <= isize::MAX && forall|i: int|
                0 <= i < rows@.len() ==> (#[trigger] rows@[i])@.len() == cols,
            r matches Some(m) ==> m.wf() && m@.width == cols && m@.rows == grid(rows@),
    {
        if cols > isize::MAX as usize {
            return None;
        }
        let mut i: usize = 0;
        while i < rows.len()
            invariant
                i <= rows@.len(),
                forall|k: int| 0 <= k < i ==> (#[trigger] rows@[k])@.len() == cols,
            decreases rows@.len() - i,
        {
            if rows[i].len() != cols {
                return None;
            }
            i += 1;
        }
        let m = array_from_rows(rows, cols);
        proof {
            let v = m@;
            assert forall|k: int| 0 <= k < v.rows.len() implies (#[trigger] v.rows[k]).len()
                == v.width by {
                assert(rows@[k]@.len() == cols);
            }
            assert forall|k: int, j: int|
                0 <= k < v.rows.len() && 0 <= j < v.rows[k].len() implies #[trigger] v.rows[k][j]
                < crate::field::modulus() by {
                assert(rows@[k]@[j].wf());
            }
        }
        Some(m)
    }

    /// The number of rows.
    pub fn nrows(&self) -> (n: usize)
        ensures
            n == self@.height(),
    {
        array_nrows(self)
    }

    /// The number of columns.
    pub fn ncols(&self) -> (n: usize)
        ensures
            n == self@.width,
    {
        array_ncols(self)
    }
}

impl Vector {
    /// The vector with the given entries.
    pub fn from_elems(elems: &Vec<FieldElem>) -> (v: Vector)
        requires
            all_wf(elems@),
        ensures
            v@ == values(elems@),
    {
        array_from_elems(elems)
    }

    /// The entries, first to last.
    pub fn elems(&self) -> (elems: Vec<FieldElem>)
        ensures
            all_wf(elems@),
            values(elems@) == self@,
    {
        array_elems(self)
    }
}

/// Builds the array with `Array2::from_shape_fn`, which asks for each entry by
/// its row and column; each is converted with `Fq::from` on its limbs. The
/// result has `rows.len()` rows and `cols` columns and holds the given
/// entries. `from_shape_fn` panics where the product of the non-zero axis
/// lengths is beyond `isize::MAX`: for rows that are in memory that can only
/// be a width without rows, which the precondition bounds. `Fq::from` panics
/// on limbs that are not canonical.
#[verifier::external_body]
fn array_from_rows(rows: &Vec<Vec<FieldElem>>, cols: usize) -> (m: Matrix)
    requires
        cols <= isize::MAX,
        forall|i: int| 0 <= i < rows@.len() ==> (#[trigger] rows@[i])@.len() == cols,
        forall|i: int| 0 <= i < rows@.len() ==> all_wf(#[trigger] rows@[i]@),
    ensures
        matrix_rows(m) == grid(rows@),
        matrix_width(m) == cols,
{
    let entry = |(i, j): (usize, usize)| Fq::from(BigInt::new(rows[i][j].limbs));
    Matrix { inner: Array2::from_shape_fn((rows.len(), cols), entry) }
}

/// `nrows` of the array: the length of its first axis.
#[verifier::external_body]
fn array_nrows(m: &Matrix) -> (n: usize)
    ensures
        n == matrix_rows(*m).len(),
{
    m.inner.nrows()
}

/// `ncols` of the array: the length of its second axis.
#[verifier::external_body]
fn array_ncols(m: &Matrix) -> (n: usize)
    ensures
        n == matrix_width(*m),
{
    m.inner.ncols()
}

/// Builds the one-dimensional array with `Array1::from` on a `Vec<Fq>`, which
/// keeps the elements in their order; each is converted with `Fq::from` on
/// its limbs, which panics on limbs that are not canonical.
#[verifier::external_body]
fn array_from_elems(elems: &Vec<FieldElem>) -> (v: Vector)
    requires
        all_wf(elems@),
    ensures
        vector_entries(v) == values(elems@),
{
    let fqs: Vec<Fq> = elems.iter().map(|e| Fq::from(BigInt::new(e.limbs))).collect();
    Vector { inner: Array1::from(fqs) }
}

/// Walks the one-dimensional array with `iter`, first entry to last, and
/// converts each `Fq` with `into_bigint`, which yields its integer in `0..q`.
#[verifier::external_body]
fn array_elems(v: &Vector) -> (elems: Vec<FieldElem>)
    ensures
        all_wf(elems@),
        values(elems@) == vector_entries(*v),
{
    v.inner.iter().map(|e| FieldElem { limbs: e.into_bigint().0 }).collect()
}

/// The product of a matrix with a vector, by ndarray's `dot` of an
/// `Array2<Fq>` with an `Array1<Fq>`: the result has one entry for each row,
/// the sum of the products of that row with the vector, taken in the field.
/// `dot` panics where the vector is not as long as the matrix is wide.
#[verifier::external_body]
pub(crate) fn array_dot(m: &Matrix, x: &Vector) -> (y: Vector)
    requires
        x@.len() == m@.width,
    ensures
        y@ == m@.apply(x@),
{
    Vector { inner: m.inner.dot(&x.inner) }
}

/// `==` of two one-dimensional arrays: whether they are equally long and
/// hold the same field elements, place by place.
#[verifier::external_body]
pub(crate) fn array_eq(u: &Vector, v: &Vector) -> (r: bool)
    ensures
        r == (u@ == v@),
{
    u.inner == v.inner
}

} // verus!

use freivald::{check_matrix_dimensions, FieldElem, Matrix};

fn filled(rows: usize, cols: usize) -> Matrix {
    let table: Vec<Vec<FieldElem>> = (0..rows)
        .map(|i| (0..cols).map(|j| FieldElem::from_u64((i * cols + j) as u64)).collect())
        .collect();
    Matrix::from_rows(&table, cols).unwrap()
}

#[test]
fn square_matrices_of_one_size_fit() {
    assert!(check_matrix_dimensions(&filled(3, 3), &filled(3, 3), &filled(3, 3)));
}

#[test]
fn rectangular_matrices_fit_where_the_product_is_defined() {
    assert!(check_matrix_dimensions(&filled(2, 3), &filled(3, 4), &filled(2, 4)));
}

#[test]
fn inner_dimension_mismatch_is_refused() {
    // a.cols != b.rows
    assert!(!check_matrix_dimensions(&filled(2, 3), &filled(4, 4), &filled(2, 4)));
}

#[test]
fn column_mismatch_with_the_claim_is_refused() {
    // b.cols != c.cols
    assert!(!check_matrix_dimensions(&filled(2, 3), &filled(3, 4), &filled(2, 3)));
}

#[test]
fn row_mismatch_with_the_claim_is_refused() {
    // a.rows != c.rows
    assert!(!check_matrix_dimensions(&filled(2, 3), &filled(3, 4), &filled(3, 4)));
}

#[test]
fn a_transposed_claim_is_refused() {
    assert!(!check_matrix_dimensions(&filled(2, 3), &filled(3, 4), &filled(4, 2)));
}

#[test]
fn empty_shapes_are_compared_like_any_other() {
    assert!(check_matrix_dimensions(&filled(0, 3), &filled(3, 2), &filled(0, 2)));
    assert!(check_matrix_dimensions(&filled(2, 0), &filled(0, 5), &filled(2, 5)));
    assert!(!check_matrix_dimensions(&filled(0, 3), &filled(3, 2), &filled(0, 3)));
}

#[test]
fn from_rows_reports_the_shape() {
    let m = filled(2, 5);
    assert_eq!(m.nrows(), 2);
    assert_eq!(m.ncols(), 5);
    let empty = filled(0, 7);
    assert_eq!(empty.nrows(), 0);
    assert_eq!(empty.ncols(), 7);
}

#[test]
fn from_rows_refuses_ragged_rows() {
    let one = FieldElem::one();
    let ragged = vec![vec![one, one], vec![one]];
    assert!(Matrix::from_rows(&ragged, 2).is_none());
    assert!(Matrix::from_rows(&ragged, 1).is_none());
}

#[test]
fn from_rows_refuses_a_width_that_the_rows_do_not_have() {
    let one = FieldElem::one();
    let table = vec![vec![one, one], vec![one, one]];
    assert!(Matrix::from_rows(&table, 3).is_none());
    assert!(Matrix::from_rows(&table, 2).is_some());
}

#[test]
fn from_rows_refuses_a_width_beyond_indexing() {
    let none: Vec<Vec<FieldElem>> = Vec::new();
    assert!(Matrix::from_rows(&none, usize::MAX).is_none());
    assert!(Matrix::from_rows(&none, isize::MAX as usize).is_some());
}

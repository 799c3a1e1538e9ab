use ark_bls12_381::Fq;
use ark_ff::PrimeField;
use freivald::{check_matrix_dimensions, verify_n, verify_with_scalars, FieldElem, Freivald, Matrix};
use ndarray::Array2;

fn array(table: &[&[u64]]) -> Array2<Fq> {
    let cols = if table.is_empty() { 0 } else { table[0].len() };
    Array2::from_shape_fn((table.len(), cols), |(i, j)| Fq::from(table[i][j]))
}

fn matrix(a: &Array2<Fq>) -> Matrix {
    let rows: Vec<Vec<FieldElem>> = a
        .outer_iter()
        .map(|row| row.iter().map(|e| FieldElem::from_limbs(e.into_bigint().0).unwrap()).collect())
        .collect();
    Matrix::from_rows(&rows, a.ncols()).unwrap()
}

fn small(table: &[&[u64]]) -> Matrix {
    matrix(&array(table))
}

fn scalars(values: &[u64]) -> Vec<FieldElem> {
    values.iter().map(|&v| FieldElem::from_u64(v)).collect()
}

fn matrix_a() -> Array2<Fq> {
    array(&[&[2, 400, 50], &[123, 6543, 1], &[2123, 23, 231]])
}

fn matrix_b() -> Array2<Fq> {
    array(&[&[4, 1, 1], &[1, 4, 1], &[1, 45, 3]])
}

fn matrix_c() -> Array2<Fq> {
    Array2::ones((200, 200))
}

fn matrix_square(m: &Array2<Fq>) -> Array2<Fq> {
    m.dot(m)
}

fn success_case(a: &Array2<Fq>, b: &Array2<Fq>, supposed_ab: &Array2<Fq>) {
    let (a, b, supposed_ab) = (matrix(a), matrix(b), matrix(supposed_ab));
    assert!(check_matrix_dimensions(&a, &b, &supposed_ab));
    let freivald = Freivald::new(supposed_ab.nrows());
    assert!(freivald.verify(&a, &b, &supposed_ab));
    assert!(verify_n(&a, &b, &supposed_ab, 5));
}

fn fail_case(a: &Array2<Fq>, b: &Array2<Fq>, c: &Array2<Fq>) {
    let (a, b, c) = (matrix(a), matrix(b), matrix(c));
    assert!(check_matrix_dimensions(&a, &b, &c));
    let freivald = Freivald::new(c.nrows());
    assert!(!freivald.verify(&a, &b, &c));
}

#[test]
fn freivald_verify_success_test_case_1() {
    success_case(&matrix_a(), &matrix_a(), &matrix_square(&matrix_a()));
}

#[test]
fn freivald_verify_success_test_case_2() {
    success_case(&matrix_b(), &matrix_b(), &matrix_square(&matrix_b()));
}

#[test]
fn freivald_verify_success_test_case_3() {
    success_case(&matrix_c(), &matrix_c(), &matrix_square(&matrix_c()));
}

#[test]
fn freivald_verify_fail_test_case_1() {
    fail_case(&matrix_a(), &matrix_b(), &matrix_square(&matrix_a()));
}

#[test]
fn freivald_verify_fail_test_case_2() {
    fail_case(&matrix_b(), &matrix_a(), &matrix_square(&matrix_b()));
}

#[test]
fn freivald_verify_fail_test_case_3() {
    // A 3 x 3 factor beside 200 x 200 matrices: the shapes do not fit, and
    // the claim is turned away before any round is run on it.
    let c = matrix(&matrix_c());
    let b = matrix(&matrix_b());
    let supposed = matrix(&matrix_square(&matrix_c()));
    assert!(!check_matrix_dimensions(&c, &b, &supposed));
}

#[test]
fn a_large_wrong_claim_is_rejected() {
    let c = matrix_c();
    let mut b = Array2::ones((200, 200));
    b[[0, 0]] = Fq::from(4u64);
    b[[2, 1]] = Fq::from(45u64);
    fail_case(&c, &b, &matrix_square(&c));
}

#[test]
fn a_single_wrong_entry_is_rejected() {
    let a = matrix_a();
    let b = matrix_b();
    let mut claim = a.dot(&b);
    claim[[2, 0]] += Fq::from(1u64);
    let (a, b, claim) = (matrix(&a), matrix(&b), matrix(&claim));
    assert!(!verify_n(&a, &b, &claim, 5));
    assert!(!Freivald::new(3).verify(&a, &b, &claim));
}

#[test]
fn as_many_different_scalars_as_the_claim_is_wide_expose_a_wrong_claim() {
    let a = matrix(&matrix_a());
    let b = matrix(&matrix_b());
    let wrong = matrix(&matrix_square(&matrix_a()));
    assert!(!verify_with_scalars(&a, &b, &wrong, &scalars(&[0, 1, 2])));
    assert!(!verify_with_scalars(&a, &b, &wrong, &scalars(&[5, 6, 7])));
    let (a, b) = (small(&[&[1]]), small(&[&[1, 1]]));
    let wrong = small(&[&[2, 0]]);
    assert!(!verify_with_scalars(&a, &b, &wrong, &scalars(&[1, 0])));
    assert!(!verify_with_scalars(&a, &b, &wrong, &scalars(&[7, 1])));
}

#[test]
fn verify_once_accepts_the_true_square_every_time() {
    let a = matrix(&matrix_a());
    let c = matrix(&matrix_square(&matrix_a()));
    for _ in 0..50 {
        assert!(Freivald::verify_once(&a, &a, &c));
    }
}

#[test]
fn verify_once_rejects_an_unrelated_factor_in_repeated_trials() {
    let a = matrix(&matrix_a());
    let b = matrix(&matrix_b());
    let c = matrix(&matrix_square(&matrix_a()));
    for _ in 0..50 {
        assert!(!Freivald::verify_once(&a, &b, &c));
    }
}

#[test]
fn verify_n_rejects_an_unrelated_factor_in_five_rounds() {
    let a = matrix(&matrix_a());
    let b = matrix(&matrix_b());
    let c = matrix(&matrix_square(&matrix_a()));
    assert!(!verify_n(&a, &b, &c, 5));
    assert!(!verify_n(&a, &b, &c, 1));
}

#[test]
fn verify_n_accepts_the_true_product_for_any_round_count() {
    let a = matrix(&matrix_a());
    let b = matrix(&matrix_b());
    let c = matrix(&matrix_a().dot(&matrix_b()));
    for n in [0u32, 1, 2, 5, 40] {
        assert!(verify_n(&a, &b, &c, n));
    }
}

#[test]
fn verify_n_with_no_rounds_accepts_a_wrong_claim() {
    let a = matrix(&matrix_a());
    let b = matrix(&matrix_b());
    let wrong = matrix(&matrix_square(&matrix_a()));
    assert!(verify_n(&a, &b, &wrong, 0));
    assert!(verify_with_scalars(&a, &b, &wrong, &scalars(&[])));
}

#[test]
fn the_true_product_passes_on_chosen_scalars() {
    let a = matrix(&matrix_a());
    let b = matrix(&matrix_b());
    let c = matrix(&matrix_a().dot(&matrix_b()));
    assert!(verify_with_scalars(&a, &b, &c, &scalars(&[0, 1, 2, 3, 1 << 63, u64::MAX])));
    for r in [0u64, 1, 7, u64::MAX] {
        assert!(Freivald::from_scalar(FieldElem::from_u64(r), 3).verify(&a, &b, &c));
    }
}

#[test]
fn a_wrong_one_by_one_claim_is_rejected() {
    // 2 * 3 against 5 on the challenge vector (1): 6 is compared with 5.
    let (a, b) = (small(&[&[2]]), small(&[&[3]]));
    assert!(!verify_with_scalars(&a, &b, &small(&[&[5]]), &scalars(&[9])));
    assert!(verify_with_scalars(&a, &b, &small(&[&[6]]), &scalars(&[9])));
    assert!(!verify_n(&a, &b, &small(&[&[5]]), 1));
    assert!(!Freivald::verify_once(&a, &b, &small(&[&[5]])));
}

#[test]
fn a_wrong_claim_passes_on_a_scalar_in_its_blind_spot() {
    // (1) * (1 1) = (1 1). The claim (2 0) differs by (1 -1), which sends the
    // challenge (1, r) to 1 - r: the round is blind on r = 1 and on no other scalar.
    let (a, b) = (small(&[&[1]]), small(&[&[1, 1]]));
    let wrong = small(&[&[2, 0]]);
    assert!(verify_with_scalars(&a, &b, &wrong, &scalars(&[1])));
    assert!(!verify_with_scalars(&a, &b, &wrong, &scalars(&[2])));
    assert!(!verify_with_scalars(&a, &b, &wrong, &scalars(&[0])));
    assert!(Freivald::from_scalar(FieldElem::from_u64(1), 2).verify(&a, &b, &wrong));
    assert!(!Freivald::from_scalar(FieldElem::from_u64(5), 2).verify(&a, &b, &wrong));
}

#[test]
fn a_claim_three_wide_can_have_two_blind_spots() {
    // (1) * (1 1 1) = (1 1 1). The claim (3 -2 2) differs by (2 -3 1), which
    // sends the challenge (1, r, r^2) to 2 - 3r + r^2 = (r - 1)(r - 2).
    let a = array(&[&[1]]);
    let b = array(&[&[1, 1, 1]]);
    let mut wrong = a.dot(&b);
    wrong[[0, 0]] += Fq::from(2u64);
    wrong[[0, 1]] -= Fq::from(3u64);
    wrong[[0, 2]] += Fq::from(1u64);
    let (a, b, wrong) = (matrix(&a), matrix(&b), matrix(&wrong));
    assert!(verify_with_scalars(&a, &b, &wrong, &scalars(&[1])));
    assert!(verify_with_scalars(&a, &b, &wrong, &scalars(&[2])));
    assert!(verify_with_scalars(&a, &b, &wrong, &scalars(&[2, 1, 1, 2])));
    for r in [0u64, 3, 4, u64::MAX] {
        assert!(!verify_with_scalars(&a, &b, &wrong, &scalars(&[r])));
    }
    assert!(!verify_with_scalars(&a, &b, &wrong, &scalars(&[1, 2, 3])));
}

#[test]
fn more_rounds_only_reject_more() {
    let (a, b) = (small(&[&[1]]), small(&[&[1, 1]]));
    let wrong = small(&[&[2, 0]]);
    assert!(verify_with_scalars(&a, &b, &wrong, &scalars(&[1])));
    assert!(verify_with_scalars(&a, &b, &wrong, &scalars(&[1, 1])));
    assert!(!verify_with_scalars(&a, &b, &wrong, &scalars(&[1, 1, 2])));
    assert!(!verify_with_scalars(&a, &b, &wrong, &scalars(&[1, 1, 2, 1])));
    assert!(!verify_with_scalars(&a, &b, &wrong, &scalars(&[2, 1])));
}

#[test]
fn the_round_works_in_the_field_not_in_the_integers() {
    // Entries near 2^64: the products leave a limb, and the claim is only
    // right once they are taken in the field.
    let big = u64::MAX;
    let a = array(&[&[big, 1], &[2, big]]);
    let b = array(&[&[big, big], &[3, 1]]);
    let c = a.dot(&b);
    let (a, b) = (matrix(&a), matrix(&b));
    assert!(verify_with_scalars(&a, &b, &matrix(&c), &scalars(&[big, 2])));
    let mut off = c.clone();
    off[[1, 1]] += Fq::from(1u64);
    assert!(!verify_with_scalars(&a, &b, &matrix(&off), &scalars(&[big])));
}

#[test]
fn rectangular_products_are_tested_on_a_vector_as_long_as_the_claim_is_wide() {
    let a = array(&[&[1, 2, 3], &[4, 5, 6]]);
    let b = array(&[&[1, 0, 2, 0], &[0, 1, 0, 2], &[7, 8, 9, 10]]);
    let c = a.dot(&b);
    let (a, b, c) = (matrix(&a), matrix(&b), matrix(&c));
    assert!(check_matrix_dimensions(&a, &b, &c));
    assert!(Freivald::verify_once(&a, &b, &c));
    assert!(verify_n(&a, &b, &c, 3));
    assert!(Freivald::new(4).verify(&a, &b, &c));
    let wrong = small(&[&[22, 26, 29, 34], &[46, 53, 62, 70 + 1]]);
    assert!(!verify_n(&a, &b, &wrong, 3));
}

#[test]
fn matrices_without_entries_pass() {
    let none: Vec<Vec<FieldElem>> = Vec::new();
    let empty = Matrix::from_rows(&none, 0).unwrap();
    assert!(verify_n(&empty, &empty, &empty, 2));
    assert!(Freivald::verify_once(&empty, &empty, &empty));
    let wide = Matrix::from_rows(&none, 3).unwrap();
    let b = small(&[&[1, 2, 3], &[4, 5, 6], &[7, 8, 9]]);
    assert!(verify_n(&wide, &b, &wide, 2));
}

#[test]
fn an_empty_inner_dimension_makes_the_product_zero() {
    let a = Matrix::from_rows(&vec![Vec::new(), Vec::new()], 0).unwrap();
    let none: Vec<Vec<FieldElem>> = Vec::new();
    let b = Matrix::from_rows(&none, 2).unwrap();
    assert!(verify_with_scalars(&a, &b, &small(&[&[0, 0], &[0, 0]]), &scalars(&[3])));
    assert!(!verify_with_scalars(&a, &b, &small(&[&[0, 0], &[0, 1]]), &scalars(&[3])));
}

use ark_bls12_381::Fq;
use ark_ff::{BigInt, PrimeField};
use freivald::field::MODULUS_LIMBS;
use freivald::{FieldElem, Freivald, Vector};

fn small(values: &[u64]) -> Vec<FieldElem> {
    values.iter().map(|&v| FieldElem::from_u64(v)).collect()
}

fn to_fq(e: &FieldElem) -> Fq {
    Fq::from(BigInt::new(e.limbs()))
}

#[test]
fn from_scalar_holds_the_powers() {
    let f = Freivald::from_scalar(FieldElem::from_u64(3), 5);
    assert_eq!(f.vector().elems(), small(&[1, 3, 9, 27, 81]));
}

#[test]
fn from_scalar_reduces_modulo_the_field_order() {
    // q - 1 is its own inverse: its powers alternate between 1 and q - 1.
    let mut limbs = MODULUS_LIMBS;
    limbs[0] -= 1;
    let minus_one = FieldElem::from_limbs(limbs).unwrap();
    let f = Freivald::from_scalar(minus_one, 4);
    let one = FieldElem::one();
    assert_eq!(f.vector().elems(), vec![one, minus_one, one, minus_one]);
}

#[test]
fn from_scalar_grows_past_a_limb() {
    let r = FieldElem::from_u64(1 << 40);
    let f = Freivald::from_scalar(r, 3);
    let expected = vec![
        FieldElem::one(),
        r,
        FieldElem::from_limbs([0, 1 << 16, 0, 0, 0, 0]).unwrap(),
    ];
    assert_eq!(f.vector().elems(), expected);
}

#[test]
fn from_scalar_of_zero_is_one_then_zeros() {
    let f = Freivald::from_scalar(FieldElem::from_u64(0), 3);
    assert_eq!(f.vector().elems(), small(&[1, 0, 0]));
}

#[test]
fn from_scalar_of_length_zero_is_empty() {
    let f = Freivald::from_scalar(FieldElem::from_u64(7), 0);
    assert!(f.vector().elems().is_empty());
}

#[test]
fn from_scalar_of_length_one_is_the_identity_alone() {
    let f = Freivald::from_scalar(FieldElem::from_u64(7), 1);
    assert_eq!(f.vector().elems(), small(&[1]));
}

#[test]
fn new_has_the_requested_length() {
    for n in [0usize, 1, 2, 17] {
        assert_eq!(Freivald::new(n).vector().elems().len(), n);
    }
}

#[test]
fn new_holds_the_powers_of_one_canonical_scalar() {
    let x = Freivald::new(6).vector().elems();
    assert_eq!(x[0], FieldElem::one());
    let r = to_fq(&x[1]);
    for i in 1..x.len() {
        assert!(FieldElem::from_limbs(x[i].limbs()).is_some());
        assert_eq!(to_fq(&x[i]), to_fq(&x[i - 1]) * r);
    }
}

#[test]
fn two_verifiers_draw_their_own_scalars() {
    let x = Freivald::new(2).vector().elems();
    let y = Freivald::new(2).vector().elems();
    assert_ne!(x[1], y[1]);
}

#[test]
fn vector_keeps_its_elements_in_order() {
    let elems = small(&[5, 0, 9, 2]);
    assert_eq!(Vector::from_elems(&elems).elems(), elems);
    let none: Vec<FieldElem> = Vec::new();
    assert!(Vector::from_elems(&none).elems().is_empty());
}

//! Elements of the prime field that the matrices live in, held as their
//! canonical little-endian 64-bit limbs.
//!
//! The arithmetic itself is done by `ark_bls12_381::Fq`; this module only
//! carries the limbs across and says which integer they stand for.

use ark_bls12_381::Fq;
use ark_ff::{BigInt, PrimeField};
use std::ops::Mul;
use vstd::prelude::*;

verus! {

/// The prime `q`, the order of the base field of BLS12-381.
pub open spec fn modulus() -> nat {
    4002409555221667393417789825735904156556882819939007885332058136124031650490837864442687629129015664037894272559787nat
}

/// The limbs of [`modulus`], least significant first.
pub const MODULUS_LIMBS: [u64; 6] = [
    0xb9feffffffffaaab,
    0x1eabfffeb153ffff,
    0x6730d2a0f6b0f624,
    0x64774b84f38512bf,
    0x4b1ba7b6434bacd7,
    0x1a0111ea397fe69a,
];

/// The natural number whose little-endian base-2^64 digits are `l`.
pub open spec fn limbs_value(l: [u64; 6]) -> nat {
    (l[0] as nat) + (l[1] as nat) * 0x1_0000000000000000nat + (l[2] as nat)
        * 0x1_0000000000000000_0000000000000000nat + (l[3] as nat)
        * 0x1_0000000000000000_0000000000000000_0000000000000000nat + (l[4] as nat)
        * 0x1_0000000000000000_0000000000000000_0000000000000000_0000000000000000nat + (
    l[5] as nat)
        * 0x1_0000000000000000_0000000000000000_0000000000000000_0000000000000000_0000000000000000nat
}

/// Two limb arrays that stand for the same number have the same digits.
pub proof fn lemma_limbs_value_injective(a: [u64; 6], b: [u64; 6])
    requires
        limbs_value(a) == limbs_value(b),
    ensures
        a@ == b@,
{
    assert(a[0] == b[0]);
    assert(a[1] == b[1]);
    assert(a[2] == b[2]);
    assert(a[3] == b[3]);
    assert(a[4] == b[4]);
    assert(a[5] == b[5]);
    assert(a@ =~= b@);
}

/// An element of the field of integers modulo [`modulus`].
#[derive(Clone, Copy, Debug, PartialEq, Eq)]
pub struct FieldElem {
    pub(crate) limbs: [u64; 6],
}

impl FieldElem {
    /// The integer that the limbs stand for.
    pub closed spec fn value(self) -> nat {
        limbs_value(self.limbs)
    }

    /// The element is canonical: its integer lies below the modulus.
    pub open spec fn wf(self) -> bool {
        self.value() < modulus()
    }

    /// The multiplicative identity.
    pub fn one() -> (e: FieldElem)
        ensures
            e.wf(),
            e.value() == 1,
    {
        FieldElem { limbs: [1, 0, 0, 0, 0, 0] }
    }

    /// The element that stands for the small integer `v`.
    pub fn from_u64(v: u64) -> (e: FieldElem)
        ensures
            e.wf(),
            e.value() == v,
    {
        FieldElem { limbs: [v, 0, 0, 0, 0, 0] }
    }

    /// The element with the given limbs, least significant first, or `None`
    /// where they stand for an integer that is not below the modulus.
    pub fn from_limbs(limbs: [u64; 6]) -> (r: Option<FieldElem>)
        ensures
            r is Some <==> limbs_value(limbs) < modulus(),
            r matches Some(e) ==> e.wf() && e.value() == limbs_value(limbs) && e.limbs_spec()
                == limbs,
    {
        if below_modulus(&limbs) {
            Some(FieldElem { limbs })
        } else {
            None
        }
    }

    /// The limbs as a specification value.
    pub closed spec fn limbs_spec(self) -> [u64; 6] {
        self.limbs
    }

    /// The limbs, least significant first.
    pub fn limbs(&self) -> (l: [u64; 6])
        ensures
            l == self.limbs_spec(),
            limbs_value(l) == self.value(),
    {
        self.limbs
    }

    /// Whether two elements stand for the same integer.
    pub fn same(&self, other: &FieldElem) -> (r: bool)
        ensures
            r == (self.value() == other.value()),
    {
        proof {
            if self.value() == other.value() {
                lemma_limbs_value_injective(self.limbs, other.limbs);
            }
        }
        self.limbs[0] == other.limbs[0] && self.limbs[1] == other.limbs[1] && self.limbs[2]
            == other.limbs[2] && self.limbs[3] == other.limbs[3] && self.limbs[4] == other.limbs[4]
            && self.limbs[5] == other.limbs[5]
    }
}

/// The integers that a sequence of elements stands for.
pub open spec fn values(s: Seq<FieldElem>) -> Seq<nat> {
    Seq::new(s.len(), |i: int| s[i].value())
}

/// Every element of the sequence is canonical.
pub open spec fn all_wf(s: Seq<FieldElem>) -> bool {
    forall|i: int| 0 <= i < s.len() ==> (#[trigger] s[i]).wf()
}

/// Whether the limbs stand for an integer below the modulus, decided from the
/// most significant limb down.
fn below_modulus(l: &[u64; 6]) -> (r: bool)
    ensures
        r == (limbs_value(*l) < modulus()),
{
    if l[5] != MODULUS_LIMBS[5] {
        l[5] < MODULUS_LIMBS[5]
    } else if l[4] != MODULUS_LIMBS[4] {
        l[4] < MODULUS_LIMBS[4]
    } else if l[3] != MODULUS_LIMBS[3] {
        l[3] < MODULUS_LIMBS[3]
    } else if l[2] != MODULUS_LIMBS[2] {
        l[2] < MODULUS_LIMBS[2]
    } else if l[1] != MODULUS_LIMBS[1] {
        l[1] < MODULUS_LIMBS[1]
    } else {
        l[0] < MODULUS_LIMBS[0]
    }
}

/// Draws a field element with `rand::random::<Fq>()`, which samples the
/// thread-local generator uniformly over the field. Nothing is claimed of
/// which element comes back, only that it is canonical: `into_bigint` yields
/// an integer in `0..q`. Where the system gives the generator no entropy to
/// start from, `rand` panics and there is nothing to recover.
#[verifier::external_body]
pub(crate) fn random_elem() -> (e: FieldElem)
    ensures
        e.wf(),
{
    FieldElem { limbs: rand::random::<Fq>().into_bigint().0 }
}

/// Multiplies two elements with `Mul::mul` of `ark_bls12_381::Fq`, the product
/// in the prime field: the integers multiplied and reduced modulo `q`.
/// `Fq::from` on a `BigInt` fails on an integer that is not below the modulus,
/// hence the precondition.
#[verifier::external_body]
pub(crate) fn mul_elems(a: &FieldElem, b: &FieldElem) -> (e: FieldElem)
    requires
        a.wf(),
        b.wf(),
    ensures
        e.value() == (a.value() * b.value()) % modulus(),
{
    let x = Fq::from(BigInt::new(a.limbs));
    let y = Fq::from(BigInt::new(b.limbs));
    FieldElem { limbs: x.mul(&y).into_bigint().0 }
}

} // verus!

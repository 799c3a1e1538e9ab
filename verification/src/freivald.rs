//! The verifier: challenge vectors, the single round, and its repetition.

use crate::field::{all_wf, modulus, mul_elems, random_elem, values, FieldElem};
use crate::linalg::{compatible, lemma_product_passes_every_round, round_passes, MatrixView};
use crate::matrix::{array_dot, array_eq, Matrix, Vector};
use vstd::arithmetic::div_mod::lemma_mul_mod_noop_left;
use vstd::arithmetic::power::{lemma_pow0, pow};
use vstd::prelude::*;

verus! {

/// `r` to the power `i`, reduced modulo the field order.
pub open spec fn power_mod(r: nat, i: nat) -> nat {
    (pow(r as int, i) % (modulus() as int)) as nat
}

/// The challenge vector of length `n` that the scalar `r` gives:
/// `(r^0, r^1, ..., r^(n-1))` in the field.
pub open spec fn powers(r: nat, n: nat) -> Seq<nat> {
    Seq::new(n, |i: int| power_mod(r, i as nat))
}

/// One more factor `r` takes the `i`-th power to the next one.
proof fn lemma_power_mod_step(r: nat, i: nat)
    ensures
        power_mod(r, i + 1) == (power_mod(r, i) * r) % modulus(),
{
    let q = modulus() as int;
    let p = pow(r as int, i);
    assert(pow(r as int, i + 1) == (r as int) * p) by {
        reveal(pow);
    }
    assert((r as int) * p == p * (r as int)) by (nonlinear_arith);
    lemma_mul_mod_noop_left(p, r as int, q);
}

/// A challenge vector starts at the multiplicative identity, and each later
/// entry is the one before it times the scalar, in the field.
pub proof fn lemma_powers_recurrence(r: nat, n: nat)
    ensures
        powers(r, n).len() == n,
        n > 0 ==> powers(r, n)[0] == 1,
        forall|i: int|
            0 < i < n ==> #[trigger] powers(r, n)[i] == (powers(r, n)[i - 1] * r) % modulus(),
{
    if n > 0 {
        lemma_pow0(r as int);
    }
    assert forall|i: int| 0 < i < n implies #[trigger] powers(r, n)[i] == (powers(r, n)[i - 1]
        * r) % modulus() by {
        lemma_power_mod_step(r, (i - 1) as nat);
    }
}

/// What repeated rounds decide on the scalars `rs`, one round for each: every
/// round passes on the powers of its scalar. No rounds, no objection.
pub open spec fn all_rounds_pass(a: MatrixView, b: MatrixView, c: MatrixView, rs: Seq<nat>) -> bool {
    forall|i: int| 0 <= i < rs.len() ==> round_passes(a, b, c, #[trigger] powers(rs[i], c.width))
}

/// A correct product passes however many rounds are run and whatever scalars
/// they are run on: the test never rejects a true claim.
pub proof fn lemma_product_passes_all_rounds(
    a: MatrixView,
    b: MatrixView,
    c: MatrixView,
    rs: Seq<nat>,
)
    requires
        a.rectangular(),
        b.rectangular(),
        a.width == b.height(),
        c == a.times(b),
    ensures
        all_rounds_pass(a, b, c, rs),
{
    assert forall|i: int| 0 <= i < rs.len() implies round_passes(
        a,
        b,
        c,
        #[trigger] powers(rs[i], c.width),
    ) by {
        lemma_product_passes_every_round(a, b, c, powers(rs[i], c.width));
    }
}

/// Running more rounds can only turn an acceptance into a rejection: a claim
/// that passes all the rounds passes the first `k` of them, so one that fails
/// within the first `k` still fails after the rest.
pub proof fn lemma_more_rounds_accept_less(
    a: MatrixView,
    b: MatrixView,
    c: MatrixView,
    rs: Seq<nat>,
    k: int,
)
    requires
        0 <= k <= rs.len(),
        all_rounds_pass(a, b, c, rs),
    ensures
        all_rounds_pass(a, b, c, rs.take(k)),
{
    let head = rs.take(k);
    assert forall|i: int| 0 <= i < head.len() implies round_passes(
        a,
        b,
        c,
        #[trigger] powers(head[i], c.width),
    ) by {
        assert(head[i] == rs[i]);
        assert(round_passes(a, b, c, powers(rs[i], c.width)));
    }
}

/// A verifier for one round: it holds the challenge vector of one scalar.
pub struct Freivald {
    x: Vector,
    scalar: Ghost<nat>,
}

impl Freivald {
    /// The challenge vector, as integers in `0..q`.
    pub closed spec fn challenge(self) -> Seq<nat> {
        self.x@
    }

    /// The scalar whose powers the challenge vector holds.
    pub closed spec fn scalar(self) -> nat {
        self.scalar@
    }

    /// The challenge vector holds the powers of the scalar, which lies in the
    /// field: it starts at one and each entry is the one before it times the
    /// scalar.
    pub open spec fn wf(self) -> bool {
        &&& self.scalar() < modulus()
        &&& self.challenge() == powers(self.scalar(), self.challenge().len())
    }

    /// The verifier whose challenge vector holds the first `n` powers of `r`.
    pub fn from_scalar(r: FieldElem, n: usize) -> (f: Freivald)
        requires
            r.wf(),
        ensures
            f.wf(),
            f.scalar() == r.value(),
            f.challenge() == powers(r.value(), n as nat),
    {
        let mut x: Vec<FieldElem> = Vec::new();
        let mut cur = FieldElem::one();
        let mut i: usize = 0;
        proof {
            lemma_pow0(r.value() as int);
        }
        while i < n
            invariant
                i <= n,
                r.wf(),
                x@.len() == i,
                cur.value() == power_mod(r.value(), i as nat),
                values(x@) == powers(r.value(), i as nat),
            decreases n - i,
        {
            proof {
                lemma_power_mod_step(r.value(), i as nat);
                let next = x@.push(cur);
                assert forall|j: int| 0 <= j < next.len() implies values(next)[j] == powers(
                    r.value(),
                    (i + 1) as nat,
                )[j] by {
                    if j < i {
                        assert(values(x@)[j] == powers(r.value(), i as nat)[j]);
                    }
                }
                assert(values(next) =~= powers(r.value(), (i + 1) as nat));
            }
            x.push(cur);
            cur = mul_elems(&cur, &r);
            i += 1;
        }
        proof {
            assert(all_wf(x@)) by {
                assert forall|j: int| 0 <= j < x@.len() implies (#[trigger] x@[j]).wf() by {
                    assert(values(x@)[j] == power_mod(r.value(), j as nat));
                }
            }
        }
        Freivald { x: Vector::from_elems(&x), scalar: Ghost(r.value()) }
    }

    /// A verifier of length `n` on a scalar drawn afresh, uniformly over the
    /// field. Two verifiers made this way share nothing: each call draws its
    /// own scalar.
    pub fn new(n: usize) -> (f: Freivald)
        ensures
            f.wf(),
            f.scalar() < modulus(),
            f.challenge() == powers(f.scalar(), n as nat),
    {
        let r = random_elem();
        Freivald::from_scalar(r, n)
    }

    /// The challenge vector.
    pub fn vector(&self) -> (x: &Vector)
        ensures
            x@ == self.challenge(),
    {
        &self.x
    }

    /// One round on this verifier's challenge vector `x`: whether
    /// `a * (b * x)` and `c * x` agree. A correct product always passes.
    pub fn verify(&self, a: &Matrix, b: &Matrix, c: &Matrix) -> (ok: bool)
        requires
            a.wf(),
            b.wf(),
            c.wf(),
            compatible(a@, b@, c@),
            self.challenge().len() == c@.width,
        ensures
            ok == round_passes(a@, b@, c@, self.challenge()),
            c@ == a@.times(b@) ==> ok,
    {
        let bx = array_dot(b, &self.x);
        let abx = array_dot(a, &bx);
        let cx = array_dot(c, &self.x);
        proof {
            if c@ == a@.times(b@) {
                lemma_product_passes_every_round(a@, b@, c@, self.challenge());
            }
        }
        array_eq(&abx, &cx)
    }

    /// One round on a verifier made for it and dropped after it. The verdict
    /// is that of the round on the powers of some scalar of the field; a
    /// correct product always passes.
    pub fn verify_once(a: &Matrix, b: &Matrix, c: &Matrix) -> (ok: bool)
        requires
            a.wf(),
            b.wf(),
            c.wf(),
            compatible(a@, b@, c@),
        ensures
            c@ == a@.times(b@) ==> ok,
            exists|r: nat|
                r < modulus() && ok == round_passes(a@, b@, c@, #[trigger] powers(r, c@.width)),
    {
        let f = Freivald::new(c.ncols());
        f.verify(a, b, c)
    }
}

/// Whether the three shapes fit: `a` is as wide as `b` is high, `b` as wide
/// as `c`, and `a` as high as `c`. Where they do not, the question whether
/// `c` is `a * b` has no meaning; `false` here is not a verdict on `c`.
pub fn check_matrix_dimensions(a: &Matrix, b: &Matrix, c: &Matrix) -> (r: bool)
    ensures
        r == compatible(a@, b@, c@),
{
    let arows = a.nrows();
    let acols = a.ncols();
    let brows = b.nrows();
    let bcols = b.ncols();
    let abrows = c.nrows();
    let abcols = c.ncols();
    acols == brows && bcols == abcols && arows == abrows
}

/// Up to `n` rounds, each on a scalar drawn afresh, stopping at the first
/// round that fails. With `n == 0` nothing is tested and the answer is
/// `true`. The verdict is that of `n` rounds on some `n` scalars of the
/// field; a correct product passes whatever is drawn.
pub fn verify_n(a: &Matrix, b: &Matrix, c: &Matrix, n: u32) -> (ok: bool)
    requires
        a.wf(),
        b.wf(),
        c.wf(),
        compatible(a@, b@, c@),
    ensures
        n == 0 ==> ok,
        c@ == a@.times(b@) ==> ok,
        exists|rs: Seq<nat>|
            rs.len() == n && (forall|i: int| 0 <= i < rs.len() ==> rs[i] < modulus()) && ok
                == #[trigger] all_rounds_pass(a@, b@, c@, rs),
{
    let ghost mut drawn: Seq<nat> = Seq::empty();
    let mut i: u32 = 0;
    while i < n
        invariant
            i <= n,
            a.wf(),
            b.wf(),
            c.wf(),
            compatible(a@, b@, c@),
            drawn.len() == i,
            forall|k: int| 0 <= k < drawn.len() ==> drawn[k] < modulus(),
            all_rounds_pass(a@, b@, c@, drawn),
        decreases n - i,
    {
        let success = Freivald::verify_once(a, b, c);
        let ghost r = choose|r: nat|
            r < modulus() && success == round_passes(a@, b@, c@, #[trigger] powers(r, c@.width));
        if !success {
            proof {
                let rs = Seq::new(n as nat, |k: int| if k < i { drawn[k] } else { r });
                assert(rs[i as int] == r);
                assert(!all_rounds_pass(a@, b@, c@, rs));
            }
            return false;
        }
        proof {
            let next = drawn.push(r);
            assert forall|k: int| 0 <= k < next.len() implies round_passes(
                a@,
                b@,
                c@,
                #[trigger] powers(next[k], c@.width),
            ) by {
                if k < i {
                    assert(next[k] == drawn[k]);
                }
            }
            drawn = next;
        }
        i += 1;
    }
    true
}

/// The rounds that [`verify_n`] would run had it drawn `scalars`: one round
/// on the powers of each, stopping at the first that fails.
pub fn verify_with_scalars(a: &Matrix, b: &Matrix, c: &Matrix, scalars: &Vec<FieldElem>) -> (ok:
    bool)
    requires
        a.wf(),
        b.wf(),
        c.wf(),
        compatible(a@, b@, c@),
        all_wf(scalars@),
    ensures
        ok == all_rounds_pass(a@, b@, c@, values(scalars@)),
{
    let mut i: usize = 0;
    while i < scalars.len()
        invariant
            i <= scalars@.len(),
            a.wf(),
            b.wf(),
            c.wf(),
            compatible(a@, b@, c@),
            all_wf(scalars@),
            forall|k: int|
                0 <= k < i ==> round_passes(
                    a@,
                    b@,
                    c@,
                    #[trigger] powers(values(scalars@)[k], c@.width),
                ),
        decreases scalars@.len() - i,
    {
        let f = Freivald::from_scalar(scalars[i], c.ncols());
        assert(values(scalars@)[i as int] == scalars@[i as int].value());
        if !f.verify(a, b, c) {
            return false;
        }
        i += 1;
    }
    true
}

} // verus!

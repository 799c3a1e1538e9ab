//! The mathematics that the verifier rests on: inner products, matrices over
//! the field as grids of integers in `0..q`, and the law that applying two
//! matrices in turn is applying their product.

use crate::field::modulus;
use vstd::arithmetic::div_mod::{lemma_add_mod_noop, lemma_mod_twice, lemma_mul_mod_noop_right};
use vstd::prelude::*;

verus! {

/// The sum of the products `u[j] * v[j]`, over the integers.
pub open spec fn dot(u: Seq<nat>, v: Seq<nat>) -> nat
    recommends
        u.len() == v.len(),
    decreases u.len(),
{
    if u.len() == 0 {
        0
    } else {
        dot(u.drop_last(), v.drop_last()) + u.last() * v.last()
    }
}

/// A matrix as the verifier sees it: its rows, and how wide each of them is
/// (which the rows alone do not tell when there are none).
pub struct MatrixView {
    pub rows: Seq<Seq<nat>>,
    pub width: nat,
}

impl MatrixView {
    /// The number of rows.
    pub open spec fn height(self) -> nat {
        self.rows.len()
    }

    /// Every row has `width` entries.
    pub open spec fn rectangular(self) -> bool {
        forall|i: int| 0 <= i < self.rows.len() ==> (#[trigger] self.rows[i]).len() == self.width
    }

    /// Every entry lies in `0..q`.
    pub open spec fn reduced(self) -> bool {
        forall|i: int, j: int|
            0 <= i < self.rows.len() && 0 <= j < self.rows[i].len() ==> #[trigger] self.rows[i][j]
                < modulus()
    }

    /// A rectangular grid of field elements.
    pub open spec fn well_formed(self) -> bool {
        self.rectangular() && self.reduced()
    }

    /// The `k`-th column, top to bottom.
    pub open spec fn column(self, k: int) -> Seq<nat> {
        Seq::new(self.rows.len(), |j: int| self.rows[j][k])
    }

    /// The matrix-vector product `self * x` in the field.
    pub open spec fn apply(self, x: Seq<nat>) -> Seq<nat>
        recommends
            self.rectangular(),
            x.len() == self.width,
    {
        Seq::new(self.rows.len(), |i: int| dot(self.rows[i], x) % modulus())
    }

    /// The matrix product `self * other` in the field.
    pub open spec fn times(self, other: MatrixView) -> MatrixView
        recommends
            self.rectangular(),
            other.rectangular(),
            self.width == other.height(),
    {
        MatrixView {
            rows: Seq::new(
                self.rows.len(),
                |i: int|
                    Seq::new(other.width, |k: int| dot(self.rows[i], other.column(k)) % modulus()),
            ),
            width: other.width,
        }
    }
}

/// The shapes fit for the comparison of `a * b` with `c`: `a` is as wide as
/// `b` is high, and `c` has the rows of `a` and the columns of `b`.
pub open spec fn compatible(a: MatrixView, b: MatrixView, c: MatrixView) -> bool {
    a.width == b.height() && b.width == c.width && a.height() == c.height()
}

/// What one round decides on the challenge vector `x`: whether `a * (b * x)`
/// and `c * x` are the same vector.
pub open spec fn round_passes(a: MatrixView, b: MatrixView, c: MatrixView, x: Seq<nat>) -> bool {
    a.apply(b.apply(x)) == c.apply(x)
}

/// The inner products of each row of `b` with `x`, before reduction.
spec fn rows_dot(b: Seq<Seq<nat>>, x: Seq<nat>) -> Seq<nat> {
    Seq::new(b.len(), |j: int| dot(b[j], x))
}

/// The inner products of `u` with each of the `n` columns of `b`, before
/// reduction.
spec fn cols_dot(u: Seq<nat>, b: Seq<Seq<nat>>, n: nat) -> Seq<nat> {
    Seq::new(n, |k: int| dot(u, Seq::new(b.len(), |j: int| b[j][k])))
}

/// Replacing the entries of the right operand by congruent ones leaves the
/// inner product congruent.
proof fn lemma_dot_congruent_right(u: Seq<nat>, v: Seq<nat>, w: Seq<nat>)
    requires
        u.len() == v.len(),
        u.len() == w.len(),
        forall|j: int| 0 <= j < v.len() ==> v[j] % modulus() == w[j] % modulus(),
    ensures
        dot(u, v) % modulus() == dot(u, w) % modulus(),
    decreases u.len(),
{
    if u.len() > 0 {
        let q = modulus() as int;
        lemma_dot_congruent_right(u.drop_last(), v.drop_last(), w.drop_last());
        let a = dot(u.drop_last(), v.drop_last()) as int;
        let b = dot(u.drop_last(), w.drop_last()) as int;
        let ul = u.last() as int;
        let vl = v.last() as int;
        let wl = w.last() as int;
        assert(vl % q == wl % q);
        lemma_mul_mod_noop_right(ul, vl, q);
        lemma_mul_mod_noop_right(ul, wl, q);
        lemma_add_mod_noop(a, ul * vl, q);
        lemma_add_mod_noop(b, ul * wl, q);
    }
}

/// The inner product does not depend on the order of its operands.
proof fn lemma_dot_commutes(u: Seq<nat>, v: Seq<nat>)
    requires
        u.len() == v.len(),
    ensures
        dot(u, v) == dot(v, u),
    decreases u.len(),
{
    if u.len() > 0 {
        lemma_dot_commutes(u.drop_last(), v.drop_last());
        assert(u.last() * v.last() == v.last() * u.last()) by (nonlinear_arith);
    }
}

/// Replacing the entries of the left operand by congruent ones leaves the
/// inner product congruent.
proof fn lemma_dot_congruent_left(v: Seq<nat>, w: Seq<nat>, x: Seq<nat>)
    requires
        x.len() == v.len(),
        x.len() == w.len(),
        forall|j: int| 0 <= j < v.len() ==> v[j] % modulus() == w[j] % modulus(),
    ensures
        dot(v, x) % modulus() == dot(w, x) % modulus(),
{
    lemma_dot_commutes(v, x);
    lemma_dot_commutes(w, x);
    lemma_dot_congruent_right(x, v, w);
}

/// The inner product with a vector of zeros is zero.
proof fn lemma_dot_zero_left(z: Seq<nat>, x: Seq<nat>)
    requires
        z.len() == x.len(),
        forall|k: int| 0 <= k < z.len() ==> z[k] == 0,
    ensures
        dot(z, x) == 0,
    decreases z.len(),
{
    if z.len() > 0 {
        lemma_dot_zero_left(z.drop_last(), x.drop_last());
        assert(z.last() * x.last() == 0) by (nonlinear_arith)
            requires
                z.last() == 0,
        ;
    }
}

/// The inner product is linear in its left operand: where `s = p + a * r`
/// entry by entry, `s . x = p . x + a * (r . x)`.
proof fn lemma_dot_linear_left(p: Seq<nat>, a: nat, r: Seq<nat>, s: Seq<nat>, x: Seq<nat>)
    requires
        p.len() == x.len(),
        r.len() == x.len(),
        s.len() == x.len(),
        forall|k: int| 0 <= k < s.len() ==> s[k] == p[k] + a * r[k],
    ensures
        dot(s, x) == dot(p, x) + a * dot(r, x),
    decreases x.len(),
{
    if x.len() > 0 {
        lemma_dot_linear_left(p.drop_last(), a, r.drop_last(), s.drop_last(), x.drop_last());
        let dp = dot(p.drop_last(), x.drop_last());
        let dr = dot(r.drop_last(), x.drop_last());
        let pl = p.last();
        let rl = r.last();
        let xl = x.last();
        assert(s.last() == pl + a * rl);
        assert((pl + a * rl) * xl + a * dr == pl * xl + a * (dr + rl * xl)) by (nonlinear_arith);
    } else {
        assert(a * 0 == 0) by (nonlinear_arith);
    }
}

/// The double sum over `u[j] * b[j][k] * x[k]` may be taken rows first or
/// columns first.
proof fn lemma_sum_exchange(u: Seq<nat>, b: Seq<Seq<nat>>, n: nat, x: Seq<nat>)
    requires
        u.len() == b.len(),
        x.len() == n,
        forall|j: int| 0 <= j < b.len() ==> (#[trigger] b[j]).len() == n,
    ensures
        dot(u, rows_dot(b, x)) == dot(cols_dot(u, b, n), x),
    decreases u.len(),
{
    if u.len() == 0 {
        let z = cols_dot(u, b, n);
        assert forall|k: int| 0 <= k < z.len() implies z[k] == 0 by {
            assert(z[k] == dot(u, Seq::new(b.len(), |j: int| b[j][k])));
        }
        lemma_dot_zero_left(z, x);
    } else {
        let u0 = u.drop_last();
        let b0 = b.drop_last();
        let a = u.last();
        let r = b.last();
        lemma_sum_exchange(u0, b0, n, x);
        assert(rows_dot(b, x).drop_last() =~= rows_dot(b0, x));
        assert(rows_dot(b, x).last() == dot(r, x));
        let s = cols_dot(u, b, n);
        let p = cols_dot(u0, b0, n);
        assert forall|k: int| 0 <= k < s.len() implies s[k] == p[k] + a * r[k] by {
            let col = Seq::new(b.len(), |j: int| b[j][k]);
            let col0 = Seq::new(b0.len(), |j: int| b0[j][k]);
            assert(col.drop_last() =~= col0);
            assert(col.last() == r[k]);
            assert(s[k] == dot(u, col));
            assert(p[k] == dot(u0, col0));
        }
        lemma_dot_linear_left(p, a, r, s, x);
    }
}

/// Applying `b` and then `a` to a vector is applying the product `a * b`:
/// `a * (b * x) = (a * b) * x` in the field.
pub proof fn lemma_apply_times(a: MatrixView, b: MatrixView, x: Seq<nat>)
    requires
        a.rectangular(),
        b.rectangular(),
        a.width == b.height(),
        x.len() == b.width,
    ensures
        a.apply(b.apply(x)) == a.times(b).apply(x),
{
    let q = modulus() as int;
    let n = b.width;
    let bx = b.apply(x);
    let ab = a.times(b);
    let raw_bx = rows_dot(b.rows, x);
    assert(bx.len() == raw_bx.len());
    assert(ab.rows.len() == a.rows.len());
    assert(ab.rectangular());
    assert forall|i: int| 0 <= i < a.rows.len() implies a.apply(bx)[i] == ab.apply(x)[i] by {
        let u = a.rows[i];
        let raw_ab = cols_dot(u, b.rows, n);
        assert(ab.rows[i].len() == raw_ab.len());
        assert forall|j: int| 0 <= j < bx.len() implies bx[j] % modulus() == raw_bx[j]
            % modulus() by {
            lemma_mod_twice(raw_bx[j] as int, q);
        }
        lemma_dot_congruent_right(u, bx, raw_bx);
        assert forall|k: int| 0 <= k < ab.rows[i].len() implies ab.rows[i][k] % modulus()
            == raw_ab[k] % modulus() by {
            assert(b.column(k) =~= Seq::new(b.rows.len(), |j: int| b.rows[j][k]));
            lemma_mod_twice(raw_ab[k] as int, q);
        }
        lemma_dot_congruent_left(ab.rows[i], raw_ab, x);
        lemma_sum_exchange(u, b.rows, n, x);
    }
    assert(a.apply(bx) =~= ab.apply(x));
}

/// A correct product passes the round on every challenge vector: where `c`
/// is `a * b`, `a * (b * x)` and `c * x` agree whatever `x` is.
pub proof fn lemma_product_passes_every_round(
    a: MatrixView,
    b: MatrixView,
    c: MatrixView,
    x: Seq<nat>,
)
    requires
        a.rectangular(),
        b.rectangular(),
        a.width == b.height(),
        x.len() == b.width,
        c == a.times(b),
    ensures
        round_passes(a, b, c, x),
{
    lemma_apply_times(a, b, x);
}

} // verus!

//! Why a wrong claim rarely passes. The entries of a challenge vector are the
//! powers of one scalar, so each row of the difference between the claim and
//! the product is a polynomial in that scalar, and over a field a polynomial
//! that is not zero has fewer roots than it has coefficients. The scalars on
//! which a round is blind to a wrong claim are therefore fewer than the claim
//! is wide, out of the `q` that a round may draw.
//!
//! That the modulus is prime is not proved here: the law that needs it takes
//! it as a hypothesis.

use crate::field::modulus;
use crate::freivald::{all_rounds_pass, power_mod, powers};
use crate::linalg::{compatible, dot, lemma_apply_times, round_passes, MatrixView};
use vstd::arithmetic::div_mod::{
    lemma_add_mod_noop, lemma_fundamental_div_mod, lemma_mod_add_multiples_vanish,
    lemma_mod_equivalence, lemma_mod_multiples_basic, lemma_mul_mod_noop_left,
    lemma_mul_mod_noop_right, lemma_small_mod, lemma_sub_mod_noop,
};
use vstd::arithmetic::power::{lemma_pow0, pow};
use vstd::prelude::*;
use vstd::set_lib::lemma_len_subset;

verus! {

/// `d` divides `n`.
pub open spec fn divides(d: nat, n: nat) -> bool {
    n % d == 0
}

/// `p` is prime: above one, and divided by nothing between one and itself.
pub open spec fn is_prime(p: nat) -> bool {
    p > 1 && forall|d: nat| 1 < d < p ==> !#[trigger] divides(d, p)
}

/// The value at `x` of the polynomial with coefficients `c`, lowest first.
spec fn poly(c: Seq<int>, x: int) -> int
    decreases c.len(),
{
    if c.len() == 0 {
        0
    } else {
        c[0] + x * poly(c.drop_first(), x)
    }
}

/// The coefficients of the quotient of the polynomial `c` by `x - r`.
spec fn quotient(c: Seq<int>, r: int) -> Seq<int> {
    Seq::new((c.len() - 1) as nat, |k: int| poly(c.skip(k + 1), r))
}

/// A sequence of naturals as integers.
spec fn ints(u: Seq<nat>) -> Seq<int> {
    Seq::new(u.len(), |k: int| u[k] as int)
}

/// A prime that divides a product with a factor below it divides the other
/// factor.
proof fn lemma_euclid(p: nat, a: nat, b: int)
    requires
        is_prime(p),
        0 < a < p,
        (a * b) % (p as int) == 0,
    ensures
        b % (p as int) == 0,
    decreases a,
{
    let m = p as int;
    if a == 1 {
        assert(a * b == b) by (nonlinear_arith)
            requires
                a == 1,
        ;
    } else {
        let k = m / (a as int);
        let s = m % (a as int);
        lemma_fundamental_div_mod(m, a as int);
        if s == 0 {
            assert(divides(a, p));
        } else {
            assert(s * b == m * b - k * (a * b)) by (nonlinear_arith)
                requires
                    m == a * k + s,
            ;
            assert((b * m) % m == 0) by {
                lemma_mod_multiples_basic(b, m);
            }
            assert(m * b == b * m) by (nonlinear_arith);
            assert((k * (a * b)) % m == 0) by {
                lemma_mul_mod_noop_right(k, a * b, m);
                assert(k * 0 == 0) by (nonlinear_arith);
                lemma_small_mod(0, p);
            }
            assert((s * b) % m == 0) by {
                lemma_sub_mod_noop(m * b, k * (a * b), m);
                lemma_small_mod(0, p);
            }
            lemma_euclid(p, s as nat, b);
        }
    }
}

/// Modulo a prime, a product is zero only where a factor is.
proof fn lemma_no_zero_divisors(p: nat, u: int, v: int)
    requires
        is_prime(p),
        (u * v) % (p as int) == 0,
        u % (p as int) != 0,
    ensures
        v % (p as int) == 0,
{
    let m = p as int;
    let a = u % m;
    lemma_mul_mod_noop_left(u, v, m);
    lemma_euclid(p, a as nat, v);
}

/// Two different integers of `0..m` are not congruent modulo `m`.
proof fn lemma_distinct_residues(x: nat, y: nat, m: nat)
    requires
        x < m,
        y < m,
        x != y,
    ensures
        (x - y) % (m as int) != 0,
{
    if x > y {
        lemma_small_mod((x - y) as nat, m);
    } else {
        lemma_mod_add_multiples_vanish(x - y, m as int);
        lemma_small_mod((m + x - y) as nat, m);
    }
}

/// One more coefficient at the top adds its multiple of the next power.
proof fn lemma_poly_push(c: Seq<int>, h: int, x: int)
    ensures
        poly(c.push(h), x) == poly(c, x) + h * pow(x, c.len()),
    decreases c.len(),
{
    let e = c.push(h);
    if c.len() == 0 {
        assert(e.drop_first() =~= Seq::<int>::empty());
        assert(poly(e.drop_first(), x) == 0);
        lemma_pow0(x);
        assert(poly(e, x) == h + x * 0);
        assert(h + x * 0 == h * 1) by (nonlinear_arith);
    } else {
        let t = c.drop_first();
        assert(e.drop_first() =~= t.push(h));
        lemma_poly_push(t, h, x);
        let w = pow(x, t.len());
        assert(pow(x, c.len()) == x * w) by {
            reveal(pow);
        }
        assert(x * (poly(t, x) + h * w) == x * poly(t, x) + h * (x * w)) by (nonlinear_arith);
    }
}

/// The polynomial of the differences is the difference of the polynomials.
proof fn lemma_poly_sub(c: Seq<int>, d: Seq<int>, e: Seq<int>, x: int)
    requires
        c.len() == d.len(),
        c.len() == e.len(),
        forall|k: int| 0 <= k < e.len() ==> e[k] == c[k] - d[k],
    ensures
        poly(e, x) == poly(c, x) - poly(d, x),
    decreases c.len(),
{
    if c.len() > 0 {
        lemma_poly_sub(c.drop_first(), d.drop_first(), e.drop_first(), x);
        let pc = poly(c.drop_first(), x);
        let pd = poly(d.drop_first(), x);
        assert(x * (pc - pd) == x * pc - x * pd) by (nonlinear_arith);
    }
}

/// Division with remainder by `x - r`: the remainder is the value at `r`.
proof fn lemma_division(c: Seq<int>, r: int, x: int)
    requires
        c.len() >= 1,
    ensures
        poly(c, x) == poly(c, r) + (x - r) * poly(quotient(c, r), x),
    decreases c.len(),
{
    let t = c.drop_first();
    let g = quotient(c, r);
    if t.len() == 0 {
        assert(poly(t, x) == 0);
        assert(poly(t, r) == 0);
        assert(poly(g, x) == 0);
        assert((x - r) * 0 == 0) by (nonlinear_arith);
        assert(x * 0 == 0) by (nonlinear_arith);
        assert(r * 0 == 0) by (nonlinear_arith);
    } else {
        lemma_division(t, r, x);
        let gt = quotient(t, r);
        assert(c.skip(1) =~= t);
        assert(g[0] == poly(t, r));
        assert(g.drop_first() =~= gt) by {
            assert forall|k: int| 0 <= k < gt.len() implies g.drop_first()[k] == gt[k] by {
                assert(c.skip(k + 2) =~= t.skip(k + 1));
            }
        }
        let big = poly(gt, x);
        let tr = poly(t, r);
        assert(poly(g, x) == tr + x * big);
        assert(poly(t, x) == tr + (x - r) * big);
        assert(c[0] + x * (tr + (x - r) * big) == (c[0] + r * tr) + (x - r) * (tr + x * big))
            by (nonlinear_arith);
    }
}

/// Modulo a prime, a polynomial with as many roots, no two of them
/// congruent, as it has coefficients has every coefficient congruent to zero.
proof fn lemma_roots_force_zero(c: Seq<int>, rs: Seq<int>)
    requires
        is_prime(modulus()),
        rs.len() == c.len(),
        forall|i: int, j: int|
            0 <= i < rs.len() && 0 <= j < rs.len() && i != j ==> (#[trigger] rs[i] - #[trigger] rs[j])
                % (modulus() as int) != 0,
        forall|i: int| 0 <= i < rs.len() ==> poly(c, #[trigger] rs[i]) % (modulus() as int) == 0,
    ensures
        forall|j: int| 0 <= j < c.len() ==> #[trigger] c[j] % (modulus() as int) == 0,
    decreases c.len(),
{
    let q = modulus() as int;
    if c.len() > 0 {
        let r0 = rs[0];
        let g = quotient(c, r0);
        let rest = rs.drop_first();
        assert forall|i: int| 0 <= i < rest.len() implies poly(g, #[trigger] rest[i]) % q == 0 by {
            let x = rest[i];
            assert(x == rs[i + 1]);
            lemma_division(c, r0, x);
            let u = x - r0;
            let v = poly(g, x);
            assert(poly(c, rs[i + 1]) % q == 0);
            assert(poly(c, rs[0]) % q == 0);
            assert((u * v) % q == 0) by {
                lemma_sub_mod_noop(poly(c, x), poly(c, r0), q);
                lemma_small_mod(0, modulus());
            }
            assert((rs[i + 1] - rs[0]) % q != 0);
            lemma_no_zero_divisors(modulus(), u, v);
        }
        assert forall|i: int, j: int|
            0 <= i < rest.len() && 0 <= j < rest.len() && i != j implies (#[trigger] rest[i]
            - #[trigger] rest[j]) % q != 0 by {
            assert(rest[i] == rs[i + 1]);
            assert(rest[j] == rs[j + 1]);
        }
        lemma_roots_force_zero(g, rest);
        assert forall|j: int| 0 <= j < c.len() implies #[trigger] c[j] % q == 0 by {
            let here = c.skip(j);
            let next = c.skip(j + 1);
            assert(here.drop_first() =~= next);
            assert(here[0] == c[j]);
            assert(poly(here, r0) == c[j] + r0 * poly(next, r0));
            assert(poly(here, r0) % q == 0) by {
                if j == 0 {
                    assert(here =~= c);
                    assert(poly(c, rs[0]) % q == 0);
                } else {
                    assert(g[j - 1] == poly(here, r0));
                }
            }
            assert(poly(next, r0) % q == 0) by {
                if j + 1 < c.len() {
                    assert(g[j] == poly(next, r0));
                } else {
                    assert(next.len() == 0);
                    lemma_small_mod(0, modulus());
                }
            }
            assert((r0 * poly(next, r0)) % q == 0) by {
                lemma_mul_mod_noop_right(r0, poly(next, r0), q);
                assert(r0 * 0 == 0) by (nonlinear_arith);
                lemma_small_mod(0, modulus());
            }
            lemma_sub_mod_noop(poly(here, r0), r0 * poly(next, r0), q);
            lemma_small_mod(0, modulus());
        }
    }
}

/// The inner product of a row with the powers of `r` is, in the field, the
/// value at `r` of the polynomial whose coefficients are the row.
proof fn lemma_dot_powers_is_poly(u: Seq<nat>, r: nat)
    ensures
        dot(u, powers(r, u.len())) % modulus() == poly(ints(u), r as int) % (modulus() as int),
    decreases u.len(),
{
    let q = modulus() as int;
    let n = u.len();
    if n == 0 {
        assert(ints(u).len() == 0);
    } else {
        let u0 = u.drop_last();
        let x = powers(r, n);
        lemma_dot_powers_is_poly(u0, r);
        assert(x.drop_last() =~= powers(r, u0.len()));
        assert(ints(u) =~= ints(u0).push(u.last() as int));
        lemma_poly_push(ints(u0), u.last() as int, r as int);
        let w = pow(r as int, u0.len());
        assert(x.last() == power_mod(r, u0.len()));
        assert(x.last() == w % q);
        let ul = u.last() as int;
        let d0 = dot(u0, powers(r, u0.len())) as int;
        let p0 = poly(ints(u0), r as int);
        assert(dot(u, x) == d0 + ul * (w % q));
        assert(poly(ints(u), r as int) == p0 + ul * w);
        lemma_mul_mod_noop_right(ul, w, q);
        lemma_add_mod_noop(d0, ul * (w % q), q);
        lemma_add_mod_noop(p0, ul * w, q);
    }
}

/// A wrong claim has fewer blind spots than it is wide, given that the
/// modulus is prime: of any `c.width` different scalars of the field, at
/// least one gives a challenge vector on which the round fails.
pub proof fn lemma_wrong_claim_has_few_blind_spots(
    a: MatrixView,
    b: MatrixView,
    c: MatrixView,
    rs: Seq<nat>,
)
    requires
        is_prime(modulus()),
        a.well_formed(),
        b.well_formed(),
        c.well_formed(),
        compatible(a, b, c),
        c != a.times(b),
        rs.len() == c.width,
        rs.no_duplicates(),
        forall|i: int| 0 <= i < rs.len() ==> rs[i] < modulus(),
    ensures
        !all_rounds_pass(a, b, c, rs),
{
    let q = modulus() as int;
    let n = c.width;
    let ab = a.times(b);
    if all_rounds_pass(a, b, c, rs) {
        if forall|i: int, j: int|
            0 <= i < c.rows.len() && 0 <= j < n ==> c.rows[i][j] == ab.rows[i][j] {
            assert forall|i: int| 0 <= i < c.rows.len() implies c.rows[i] == ab.rows[i] by {
                assert(c.rows[i].len() == n);
                assert(c.rows[i] =~= ab.rows[i]);
            }
            assert(c.rows =~= ab.rows);
            assert(false);
        }
        let (i, j) = choose|i: int, j: int|
            0 <= i < c.rows.len() && 0 <= j < n && c.rows[i][j] != ab.rows[i][j];
        let ci = c.rows[i];
        let abi = ab.rows[i];
        assert(ci.len() == n);
        assert(abi.len() == n);
        let d = Seq::new(n, |k: int| ci[k] - abi[k]);
        let roots = ints(rs);
        assert forall|k: int| 0 <= k < roots.len() implies poly(d, #[trigger] roots[k]) % q
            == 0 by {
            let x = powers(rs[k], n);
            assert(round_passes(a, b, c, x));
            lemma_apply_times(a, b, x);
            assert(ab.apply(x)[i] == c.apply(x)[i]);
            lemma_dot_powers_is_poly(ci, rs[k]);
            lemma_dot_powers_is_poly(abi, rs[k]);
            lemma_poly_sub(ints(ci), ints(abi), d, rs[k] as int);
            lemma_mod_equivalence(poly(ints(ci), rs[k] as int), poly(ints(abi), rs[k] as int), q);
        }
        assert forall|k: int, l: int|
            0 <= k < roots.len() && 0 <= l < roots.len() && k != l implies (#[trigger] roots[k]
            - #[trigger] roots[l]) % q != 0 by {
            assert(rs[k] != rs[l]);
            lemma_distinct_residues(rs[k], rs[l], modulus());
        }
        lemma_roots_force_zero(d, roots);
        assert(d[j] % q == 0);
        assert(ci[j] < modulus());
        assert(abi[j] == dot(a.rows[i], b.column(j)) % modulus());
        lemma_distinct_residues(ci[j], abi[j], modulus());
        assert(false);
    }
}

/// The scalars of the field on which a round passes the claim. For a wrong
/// claim these are its blind spots.
pub open spec fn passing_scalars(a: MatrixView, b: MatrixView, c: MatrixView) -> Set<nat> {
    Set::new(|r: nat| r < modulus() && round_passes(a, b, c, powers(r, c.width)))
}

/// The naturals below `n` are `n` in number.
proof fn lemma_below(n: nat)
    ensures
        Set::new(|r: nat| r < n).finite(),
        Set::new(|r: nat| r < n).len() == n,
    decreases n,
{
    let s = Set::new(|r: nat| r < n);
    if n == 0 {
        assert(s =~= Set::<nat>::empty());
    } else {
        let m = (n - 1) as nat;
        let t = Set::new(|r: nat| r < m);
        lemma_below(m);
        assert(s =~= t.insert(m));
    }
}

/// A finite set holds as many different elements as one asks for, up to its
/// size.
proof fn lemma_pick(s: Set<nat>, n: nat) -> (rs: Seq<nat>)
    requires
        s.finite(),
        s.len() >= n,
    ensures
        rs.len() == n,
        rs.no_duplicates(),
        forall|i: int| 0 <= i < rs.len() ==> s.contains(#[trigger] rs[i]),
    decreases n,
{
    if n == 0 {
        Seq::empty()
    } else {
        let x = s.choose();
        let rest = lemma_pick(s.remove(x), (n - 1) as nat);
        let rs = rest.push(x);
        assert forall|i: int, j: int|
            0 <= i < rs.len() && 0 <= j < rs.len() && i != j implies rs[i] != rs[j] by {
            if i < rest.len() {
                assert(s.remove(x).contains(rest[i]));
            }
            if j < rest.len() {
                assert(s.remove(x).contains(rest[j]));
            }
        }
        assert forall|i: int| 0 <= i < rs.len() implies s.contains(#[trigger] rs[i]) by {
            if i < rest.len() {
                assert(s.remove(x).contains(rest[i]));
            }
        }
        rs
    }
}

/// Given that the modulus is prime, the scalars on which a round passes a
/// wrong claim are fewer than the claim is wide.
pub proof fn lemma_blind_spots_are_few(a: MatrixView, b: MatrixView, c: MatrixView)
    requires
        is_prime(modulus()),
        a.well_formed(),
        b.well_formed(),
        c.well_formed(),
        compatible(a, b, c),
        c != a.times(b),
    ensures
        passing_scalars(a, b, c).finite(),
        passing_scalars(a, b, c).len() < c.width,
{
    let s = passing_scalars(a, b, c);
    lemma_below(modulus());
    assert(s.subset_of(Set::new(|r: nat| r < modulus())));
    lemma_len_subset(s, Set::new(|r: nat| r < modulus()));
    if s.len() >= c.width {
        let rs = lemma_pick(s, c.width);
        assert forall|i: int| 0 <= i < rs.len() implies round_passes(
            a,
            b,
            c,
            #[trigger] powers(rs[i], c.width),
        ) by {
            assert(s.contains(rs[i]));
        }
        lemma_wrong_claim_has_few_blind_spots(a, b, c, rs);
    }
}

} // verus!

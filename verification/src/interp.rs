//! Lagrange interpolation: coefficient lists of products of linear
//! factors, the Lagrange basis of a set of constant points, and the
//! interpolation encoder.
use vstd::prelude::*;
use vstd::arithmetic::power::pow;

use crate::encode::{encodes, link_to_polys, poly_vals};
use crate::field::{modulus, Fe};
use crate::ideal::Ideal;
use crate::namespace::IdealBuilder;
use crate::typ::ATyp;
use crate::poly::Polynomial;
use crate::formal::{constancy, formally_zero, lemma_formally_const_eval, Constancy};
use crate::poly_source::{lits, operand_ok, operand_polys, pviews, Operand, PolySource};
use crate::polyv::{eval, poly_vars, Env, PolyV};
use crate::pow::zero_env;
use crate::value::{const_readable, value_consts};
use crate::var::{slot_list, slots_ok, views, Var, VarV};

verus! {

broadcast use {crate::field::lemma_val_lt, crate::polyv::lemma_eval_lt};

/// Coefficient `d` of the coefficient list `c`, zero outside it.
pub open spec fn cz(c: Seq<int>, d: int) -> int {
    if 0 <= d < c.len() {
        c[d]
    } else {
        0
    }
}

/// Coefficients of `c(X) * (X - a)`, where `c` lists the coefficients of
/// `c(X)` from the constant term up.
pub open spec fn mul_lin(c: Seq<int>, a: int) -> Seq<int> {
    Seq::new(c.len() + 1, |d: int| cz(c, d - 1) - a * cz(c, d))
}

/// Coefficients of `(X - a[0]) * ... * (X - a[n-1])`, constant term first.
pub open spec fn lin_coeffs(a: Seq<int>) -> Seq<int>
    decreases a.len(),
{
    if a.len() == 0 {
        seq![1int]
    } else {
        mul_lin(lin_coeffs(a.drop_last()), a.last())
    }
}

/// `(x - a[0]) * ... * (x - a[n-1])`.
pub open spec fn lin_prod(a: Seq<int>, x: int) -> int
    decreases a.len(),
{
    if a.len() == 0 {
        1
    } else {
        lin_prod(a.drop_last(), x) * (x - a.last())
    }
}

/// The points `xs[0..j]` without the `i`-th.
pub open spec fn skip(xs: Seq<int>, i: int, j: int) -> Seq<int> {
    if j <= i {
        xs.subrange(0, j)
    } else {
        xs.subrange(0, i) + xs.subrange(i + 1, j)
    }
}

/// All points but the `i`-th.
pub open spec fn others(xs: Seq<int>, i: int) -> Seq<int> {
    skip(xs, i, xs.len() as int)
}

/// `u` is a residue inverting `a` modulo the field order.
pub open spec fn is_inv(a: int, u: nat) -> bool {
    u < modulus() && (a * u) % (modulus() as int) == 1
}

/// The inverse of `a` modulo the field order, when there is one.
pub open spec fn inv(a: int) -> nat {
    choose|u: nat| is_inv(a, u)
}

/// `a` has an inverse modulo the field order.
pub open spec fn invertible(a: int) -> bool {
    exists|u: nat| is_inv(a, u)
}

/// An inverse modulo the field order is unique.
pub proof fn lemma_inv_unique(a: int, u: nat)
    requires
        u < modulus(),
        (a * u) % (modulus() as int) == 1,
    ensures
        invertible(a),
        inv(a) == u,
{
    let m = modulus() as int;
    assert(is_inv(a, u));
    let v = inv(a);
    assert((a * v) % m == 1);
    // u = u * (a * v) = (u * a) * v = v (mod m)
    vstd::arithmetic::div_mod::lemma_mul_mod_noop_right(u as int, a * v, m);
    vstd::arithmetic::div_mod::lemma_mul_mod_noop_left(a * u, v as int, m);
    assert(u as int * (a * v) == (a * u) * v) by (nonlinear_arith);
    vstd::arithmetic::div_mod::lemma_small_mod(u, modulus());
    vstd::arithmetic::div_mod::lemma_small_mod(v, modulus());
    assert((u as int * 1) % m == u);
    assert((1 * v as int) % m == v);
}

/// The values of a list of field elements.
pub open spec fn fvals(s: Seq<Fe>) -> Seq<int> {
    s.map_values(|c: Fe| c.val() as int)
}

/// `s` holds the residues of `c`, one by one.
pub open spec fn reduces(s: Seq<Fe>, c: Seq<int>) -> bool {
    &&& s.len() == c.len()
    &&& forall|d: int| 0 <= d < s.len() ==> #[trigger] s[d].val() == c[d] % (modulus() as int)
}

proof fn lemma_cong_lin(lo: int, lo2: int, hi: int, hi2: int, x: int, x2: int, m: int)
    requires
        m > 0,
        lo % m == lo2 % m,
        hi % m == hi2 % m,
        x % m == x2 % m,
    ensures
        (lo - x * hi) % m == (lo2 - x2 * hi2) % m,
{
    vstd::arithmetic::div_mod::lemma_mul_mod_noop(x, hi, m);
    vstd::arithmetic::div_mod::lemma_mul_mod_noop(x2, hi2, m);
    vstd::arithmetic::div_mod::lemma_sub_mod_noop(lo, x * hi, m);
    vstd::arithmetic::div_mod::lemma_sub_mod_noop(lo2, x2 * hi2, m);
}

/// `poly * (X - x)`: the coefficient list one longer, coefficient `d` being
/// `poly[d - 1] - x * poly[d]`.
fn mul_linear(poly: &Vec<Fe>, x: Fe) -> (r: Vec<Fe>)
    requires
        poly@.len() < usize::MAX,
    ensures
        reduces(r@, mul_lin(fvals(poly@), x.val() as int)),
{
    let ghost c = fvals(poly@);
    let ghost want = mul_lin(c, x.val() as int);
    let len = poly.len();
    let mut out: Vec<Fe> = Vec::new();
    let mut d: usize = 0;
    while d <= len
        invariant
            d <= len + 1,
            len == poly@.len(),
            len < usize::MAX,
            c == fvals(poly@),
            want == mul_lin(c, x.val() as int),
            out@.len() == d,
            forall|q: int| 0 <= q < d ==> #[trigger] out@[q].val() == want[q] % (modulus() as int),
        decreases len + 1 - d,
    {
        let lo = if d > 0 {
            poly[d - 1]
        } else {
            Fe::zero()
        };
        let hi = if d < len {
            poly[d]
        } else {
            Fe::zero()
        };
        let v = lo.sub(&x.mul(&hi));
        proof {
            let m = modulus() as int;
            assert(lo.val() as int == cz(c, d - 1));
            assert(hi.val() as int == cz(c, d as int));
            let y = (x.val() * hi.val()) as int;
            vstd::arithmetic::div_mod::lemma_small_mod(lo.val(), modulus());
            crate::polyv::lemma_mod_diff(lo.val() as int, y, m);
            assert(want[d as int] == cz(c, d - 1) - (x.val() as int) * cz(c, d as int));
        }
        out.push(v);
        d = d + 1;
    }
    out
}


proof fn lemma_skip_step(xs: Seq<int>, i: int, j: int)
    requires
        0 <= i < xs.len(),
        0 <= j < xs.len(),
    ensures
        j == i ==> skip(xs, i, j + 1) == skip(xs, i, j),
        j != i ==> skip(xs, i, j + 1) == skip(xs, i, j).push(xs[j]),
        skip(xs, i, j).len() == if j <= i { j } else { j - 1 },
{
    if j < i {
        assert(xs.subrange(0, j + 1) =~= xs.subrange(0, j).push(xs[j]));
    } else if j == i {
        assert(xs.subrange(0, i) + xs.subrange(i + 1, i + 1) =~= xs.subrange(0, i));
    } else {
        assert(xs.subrange(0, i) + xs.subrange(i + 1, j + 1) =~= (xs.subrange(0, i) + xs.subrange(i + 1, j)).push(xs[j]));
    }
}

proof fn lemma_lin_push(a: Seq<int>, x: int, y: int)
    ensures
        lin_prod(a.push(x), y) == lin_prod(a, y) * (y - x),
        lin_coeffs(a.push(x)) == mul_lin(lin_coeffs(a), x),
{
    assert(a.push(x).drop_last() =~= a);
}

/// Residues of congruent coefficient lists stay congruent after
/// multiplying by the same linear factor.
proof fn lemma_mul_lin_cong(s: Seq<Fe>, c: Seq<int>, x: int, r: Seq<Fe>)
    requires
        reduces(s, c),
        reduces(r, mul_lin(fvals(s), x)),
    ensures
        reduces(r, mul_lin(c, x)),
{
    let m = modulus() as int;
    let cs = fvals(s);
    assert forall|d: int| 0 <= d < r.len() implies #[trigger] r[d].val() == mul_lin(c, x)[d] % m by {
        assert(cz(cs, d - 1) % m == cz(c, d - 1) % m) by {
            if 0 <= d - 1 < s.len() {
                vstd::arithmetic::div_mod::lemma_small_mod(s[d - 1].val(), modulus());
            }
        }
        assert(cz(cs, d) % m == cz(c, d) % m) by {
            if 0 <= d < s.len() {
                vstd::arithmetic::div_mod::lemma_small_mod(s[d].val(), modulus());
            }
        }
        lemma_cong_lin(cz(cs, d - 1), cz(c, d - 1), cz(cs, d), cz(c, d), x, x, m);
    }
}

/// Row `i` of the Lagrange basis for the points `xs`: coefficient `k` of
/// `L_i(X) = prod_{j != i} (X - x_j) / (x_i - x_j)`, reduced.
pub open spec fn lag_row(row: Seq<Fe>, xs: Seq<int>, i: int) -> bool {
    let rest = others(xs, i);
    &&& row.len() == xs.len()
    &&& forall|k: int| 0 <= k < row.len() ==> #[trigger] row[k].val()
        == (lin_coeffs(rest)[k] * inv(lin_prod(rest, xs[i]))) % (modulus() as int)
}

/// The Lagrange basis for the points `xs`: row `i` holds the coefficients,
/// constant term first, of `L_i(X) = prod_{j != i} (X - x_j) / (x_i - x_j)`.
/// `None` when some denominator `prod_{j != i} (x_i - x_j)` vanishes in the
/// field, as it does for repeated points.
pub fn lagrange_basis(xs: &[Fe]) -> (r: Option<Vec<Vec<Fe>>>)
    requires
        xs@.len() < usize::MAX,
    ensures
        r is Some <==> forall|i: int| 0 <= i < xs@.len() ==> #[trigger] lin_prod(others(fvals(xs@), i), fvals(xs@)[i]) % (modulus() as int) != 0,
        r matches Some(l) ==> {
            &&& l@.len() == xs@.len()
            &&& forall|i: int| 0 <= i < l@.len() ==> #[trigger] lag_row(l@[i]@, fvals(xs@), i)
            &&& forall|i: int| 0 <= i < l@.len() ==> invertible(#[trigger] lin_prod(others(fvals(xs@), i), fvals(xs@)[i]))
        },
{
    let ghost xv = fvals(xs@);
    let ghost m = modulus() as int;
    let n = xs.len();
    let mut basis: Vec<Vec<Fe>> = Vec::new();
    let mut i: usize = 0;
    while i < n
        invariant
            i <= n,
            n == xs@.len(),
            n < usize::MAX,
            xv == fvals(xs@),
            m == modulus() as int,
            basis@.len() == i,
            forall|q: int| 0 <= q < i ==> #[trigger] lag_row(basis@[q]@, xv, q),
            forall|q: int| 0 <= q < i ==> #[trigger] lin_prod(others(xv, q), xv[q]) % m != 0,
            forall|q: int| 0 <= q < i ==> invertible(#[trigger] lin_prod(others(xv, q), xv[q])),
        decreases n - i,
    {
        let mut denom = Fe::one();
        let mut j: usize = 0;
        proof {
            assert(skip(xv, i as int, 0) =~= Seq::<int>::empty());
            vstd::arithmetic::div_mod::lemma_small_mod(1, modulus());
        }
        while j < n
            invariant
                j <= n,
                i < n,
                n == xs@.len(),
                xv == fvals(xs@),
                m == modulus() as int,
                denom.val() == lin_prod(skip(xv, i as int, j as int), xv[i as int]) % m,
            decreases n - j,
        {
            proof {
                lemma_skip_step(xv, i as int, j as int);
            }
            if j != i {
                let diff = xs[i].sub(&xs[j]);
                let next = denom.mul(&diff);
                proof {
                    let a = skip(xv, i as int, j as int);
                    let p = lin_prod(a, xv[i as int]);
                    let dd = xv[i as int] - xv[j as int];
                    lemma_lin_push(a, xv[j as int], xv[i as int]);
                    crate::polyv::lemma_mod_diff(xv[i as int], xv[j as int], m);
                    vstd::arithmetic::div_mod::lemma_small_mod(xs@[i as int].val(), modulus());
                    vstd::arithmetic::div_mod::lemma_small_mod(xs@[j as int].val(), modulus());
                    assert(diff.val() == dd % m);
                    vstd::arithmetic::div_mod::lemma_mul_mod_noop(p, dd, m);
                }
                denom = next;
            }
            j = j + 1;
        }
        let denom_inv = match denom.inverse() {
            Some(d) => d,
            None => {
                proof {
                    assert(xv.len() == n);
                    assert(skip(xv, i as int, n as int) == others(xv, i as int));
                    assert(lin_prod(others(fvals(xs@), i as int), fvals(xs@)[i as int]) % (modulus() as int) == 0);
                }
                return None;
            },
        };
        let ghost rest = others(xv, i as int);
        let ghost dp = lin_prod(rest, xv[i as int]);
        proof {
            vstd::arithmetic::div_mod::lemma_mul_mod_noop_left(dp, denom_inv.val() as int, m);
            lemma_inv_unique(dp, denom_inv.val());
            assert(is_inv(dp, denom_inv.val()));
        }
        let mut poly: Vec<Fe> = Vec::new();
        poly.push(Fe::one());
        let mut j: usize = 0;
        proof {
            assert(skip(xv, i as int, 0) =~= Seq::<int>::empty());
            vstd::arithmetic::div_mod::lemma_small_mod(1, modulus());
            assert(lin_coeffs(Seq::<int>::empty()) == seq![1int]);
        }
        while j < n
            invariant
                j <= n,
                i < n,
                n == xs@.len(),
                n < usize::MAX,
                xv == fvals(xs@),
                m == modulus() as int,
                reduces(poly@, lin_coeffs(skip(xv, i as int, j as int))),
                poly@.len() == skip(xv, i as int, j as int).len() + 1,
            decreases n - j,
        {
            proof {
                lemma_skip_step(xv, i as int, j as int);
                lemma_lin_coeffs_len(skip(xv, i as int, j as int));
            }
            if j != i {
                let next = mul_linear(&poly, xs[j]);
                proof {
                    let a = skip(xv, i as int, j as int);
                    lemma_lin_push(a, xv[j as int], xv[i as int]);
                    lemma_mul_lin_cong(poly@, lin_coeffs(a), xv[j as int], next@);
                    lemma_lin_coeffs_len(a.push(xv[j as int]));
                }
                poly = next;
            }
            j = j + 1;
        }
        proof {
            lemma_skip_step(xv, i as int, 0);
            assert(skip(xv, i as int, n as int) == rest);
            lemma_lin_coeffs_len(rest);
        }
        let mut row: Vec<Fe> = Vec::new();
        let mut k: usize = 0;
        while k < poly.len()
            invariant
                k <= poly@.len(),
                poly@.len() == n,
                m == modulus() as int,
                reduces(poly@, lin_coeffs(rest)),
                denom_inv.val() == inv(dp),
                row@.len() == k,
                forall|q: int| 0 <= q < k ==> #[trigger] row@[q].val() == (lin_coeffs(rest)[q] * inv(dp)) % m,
            decreases poly@.len() - k,
        {
            let v = poly[k].mul(&denom_inv);
            proof {
                vstd::arithmetic::div_mod::lemma_mul_mod_noop_left(lin_coeffs(rest)[k as int], inv(dp) as int, m);
            }
            row.push(v);
            k = k + 1;
        }
        basis.push(row);
        i = i + 1;
    }
    Some(basis)
}

proof fn lemma_lin_coeffs_len(a: Seq<int>)
    ensures
        lin_coeffs(a).len() == a.len() + 1,
    decreases a.len(),
{
    if a.len() > 0 {
        lemma_lin_coeffs_len(a.drop_last());
    }
}

/// `c[0] + c[1] x + ... + c[n - 1] x^(n - 1)`.
pub open spec fn coef_eval(c: Seq<int>, x: int) -> int
    decreases c.len(),
{
    if c.len() == 0 {
        0
    } else {
        c[0] + x * coef_eval(c.drop_first(), x)
    }
}

proof fn lemma_coef_eval_bump(s: Seq<int>, k: int, x: int)
    requires
        s.len() > 0,
    ensures
        coef_eval(s.update(0, s[0] + k), x) == coef_eval(s, x) + k,
{
    assert(s.update(0, s[0] + k).drop_first() =~= s.drop_first());
}

/// Multiplying coefficients by `X - a` multiplies the value by `x - a`.
proof fn lemma_coef_eval_mul_lin(c: Seq<int>, a: int, x: int)
    ensures
        coef_eval(mul_lin(c, a), x) == coef_eval(c, x) * (x - a),
    decreases c.len(),
{
    let m = mul_lin(c, a);
    if c.len() == 0 {
        assert(m.drop_first() =~= Seq::<int>::empty());
        assert(coef_eval(m.drop_first(), x) == 0);
        assert(m[0] == 0);
        assert(coef_eval(m, x) == 0);
    } else {
        let c1 = c.drop_first();
        let t = mul_lin(c1, a);
        lemma_coef_eval_mul_lin(c1, a, x);
        assert(m.drop_first() =~= t.update(0, t[0] + c[0])) by {
            assert forall|d: int| 0 <= d < m.drop_first().len() implies #[trigger] m.drop_first()[d] == t.update(0, t[0] + c[0])[d] by {
                assert(cz(c1, d) == cz(c, d + 1));
                if d > 0 {
                    assert(cz(c1, d - 1) == cz(c, d));
                }
            }
        }
        lemma_coef_eval_bump(t, c[0], x);
        let p1 = coef_eval(c1, x);
        assert(m[0] == 0 - a * c[0]) by {
            assert(cz(c, -1) == 0);
            assert(cz(c, 0) == c[0]);
        }
        assert(coef_eval(m.drop_first(), x) == p1 * (x - a) + c[0]);
        assert(coef_eval(m, x) == m[0] + x * coef_eval(m.drop_first(), x));
        assert(coef_eval(c, x) == c[0] + x * p1);
        assert((0 - a * c[0]) + x * (p1 * (x - a) + c[0]) == (c[0] + x * p1) * (x - a)) by (nonlinear_arith);
    }
}

/// The coefficients of `(X - a[0]) * ... * (X - a[n - 1])` evaluate to the
/// product.
proof fn lemma_lin_coeffs_eval(s: Seq<int>, x: int)
    ensures
        coef_eval(lin_coeffs(s), x) == lin_prod(s, x),
    decreases s.len(),
{
    if s.len() == 0 {
        assert(lin_coeffs(s).drop_first() =~= Seq::<int>::empty());
        assert(coef_eval(lin_coeffs(s).drop_first(), x) == 0);
        assert(coef_eval(lin_coeffs(s), x) == 1);
    } else {
        lemma_lin_coeffs_eval(s.drop_last(), x);
        lemma_coef_eval_mul_lin(lin_coeffs(s.drop_last()), s.last(), x);
    }
}

/// The product vanishes at each of its roots.
proof fn lemma_lin_prod_root(s: Seq<int>, x: int)
    requires
        s.contains(x),
    ensures
        lin_prod(s, x) == 0,
    decreases s.len(),
{
    if s.last() != x {
        let j = choose|j: int| 0 <= j < s.len() && s[j] == x;
        assert(s.drop_last()[j] == x);
        lemma_lin_prod_root(s.drop_last(), x);
    }
}

/// Scaling every coefficient by `u` scales the value by `u`, modulo the
/// field order.
proof fn lemma_coef_eval_scale(c: Seq<int>, r: Seq<int>, u: int, x: int)
    requires
        r.len() == c.len(),
        forall|k: int| 0 <= k < r.len() ==> #[trigger] r[k] % (modulus() as int) == (c[k] * u) % (modulus() as int),
    ensures
        coef_eval(r, x) % (modulus() as int) == (u * coef_eval(c, x)) % (modulus() as int),
    decreases c.len(),
{
    let m = modulus() as int;
    if c.len() > 0 {
        lemma_coef_eval_scale(c.drop_first(), r.drop_first(), u, x);
        let pr = coef_eval(r.drop_first(), x);
        let pc = coef_eval(c.drop_first(), x);
        assert(r[0] % m == (c[0] * u) % m);
        vstd::arithmetic::div_mod::lemma_mul_mod_noop_right(x, pr, m);
        vstd::arithmetic::div_mod::lemma_mul_mod_noop_right(x, u * pc, m);
        assert((x * pr) % m == (x * (u * pc)) % m);
        vstd::arithmetic::div_mod::lemma_add_mod_noop(r[0], x * pr, m);
        vstd::arithmetic::div_mod::lemma_add_mod_noop(c[0] * u, x * (u * pc), m);
        assert(c[0] * u + x * (u * pc) == u * (c[0] + x * pc)) by (nonlinear_arith);
    }
}

/// A product of `x - a_k` with `x` among the `a_k` is zero.
proof fn lemma_lin_prod_root_zero(a: Seq<int>, x: int, k: int)
    requires
        0 <= k < a.len(),
        a[k] == x,
    ensures
        lin_prod(a, x) == 0,
    decreases a.len(),
{
    if k == a.len() - 1 {
        assert(x - a.last() == 0);
        assert(lin_prod(a.drop_last(), x) * 0 == 0);
    } else {
        assert(a.drop_last()[k] == x);
        lemma_lin_prod_root_zero(a.drop_last(), x, k);
        assert(0 * (x - a.last()) == 0);
    }
}

/// An invertible denominator keeps the point apart from every other point.
proof fn lemma_points_apart(xs: Seq<int>, i: int, t: int)
    requires
        0 <= i < xs.len(),
        0 <= t < xs.len(),
        t != i,
        invertible(lin_prod(others(xs, i), xs[i])),
    ensures
        xs[t] != xs[i],
{
    if xs[t] == xs[i] {
        let o = others(xs, i);
        let t2 = if t < i { t } else { t - 1 };
        assert(o[t2] == xs[t]);
        lemma_lin_prod_root_zero(o, xs[i], t2);
        let u = choose|u: nat| is_inv(0, u);
        assert((0int * u) % (modulus() as int) == 0);
    }
}

/// Law: the rows [`lagrange_basis`] returns are the Lagrange basis of its
/// points: evaluating row `i` at point `t` gives `[i == t]` in the field.
pub proof fn lemma_lagrange_basis_delta(xs: Seq<Fe>, l: Seq<Vec<Fe>>, i: int, t: int)
    requires
        l.len() == xs.len(),
        forall|q: int| 0 <= q < l.len() ==> #[trigger] lag_row(l[q]@, fvals(xs), q),
        forall|q: int| 0 <= q < l.len() ==> invertible(#[trigger] lin_prod(others(fvals(xs), q), fvals(xs)[q])),
        0 <= i < xs.len(),
        0 <= t < xs.len(),
    ensures
        coef_eval(fvals(l[i]@), fvals(xs)[t]) % (modulus() as int) == if t == i { 1int } else { 0int },
{
    let xv = fvals(xs);
    assert(lag_row(l[i]@, xv, i));
    assert(invertible(lin_prod(others(xv, i), xv[i])));
    if t != i {
        lemma_points_apart(xv, i, t);
    }
    lemma_lagrange_delta(l[i]@, xv, i, t);
}

/// Each Lagrange basis polynomial is one at its own point and zero at the
/// other points: evaluating row `i` at point `t` gives `[i == t]` in the
/// field.
pub proof fn lemma_lagrange_delta(row: Seq<Fe>, xs: Seq<int>, i: int, t: int)
    requires
        0 <= i < xs.len(),
        0 <= t < xs.len(),
        lag_row(row, xs, i),
        invertible(lin_prod(others(xs, i), xs[i])),
        t != i ==> xs[t] != xs[i],
    ensures
        coef_eval(fvals(row), xs[t]) % (modulus() as int) == if t == i { 1int } else { 0int },
{
    let m = modulus() as int;
    let rest = others(xs, i);
    let d = lin_prod(rest, xs[i]);
    let u = inv(d);
    lemma_lin_coeffs_len(rest);
    assert(rest.len() == xs.len() - 1);
    assert forall|k: int| 0 <= k < fvals(row).len() implies #[trigger] fvals(row)[k] % m == (lin_coeffs(rest)[k] * u) % m by {
        vstd::arithmetic::div_mod::lemma_mod_twice(lin_coeffs(rest)[k] * u, m);
    }
    lemma_coef_eval_scale(lin_coeffs(rest), fvals(row), u as int, xs[t]);
    lemma_lin_coeffs_eval(rest, xs[t]);
    if t == i {
        assert(is_inv(d, u));
        assert((u * d) % m == 1) by {
            assert(u * d == d * u) by (nonlinear_arith);
        }
    } else {
        assert(rest.contains(xs[t])) by {
            if t < i {
                assert(rest[t] == xs[t]);
            } else {
                assert(rest[t - 1] == xs[t]);
            }
        }
        lemma_lin_prod_root(rest, xs[t]);
        assert(u * 0 == 0);
    }
}

/// The polynomials standing for the interpolation points: the constants of
/// a literal, or the definitions of the slots of the points' node.
pub open spec fn point_polys(ideal: Ideal, points: Operand) -> Seq<PolyV> {
    match points {
        Operand::Value(v, _) => lits(value_consts(v)),
        Operand::Ref(r, _) => slot_list(ideal.names()[r]).map_values(|s: VarV| ideal.defs()[s]),
    }
}

/// What reading the points needs: a literal readable as constants, or a
/// named node all of whose slots are defined.
pub open spec fn points_ok(ideal: Ideal, points: Operand) -> bool {
    match points {
        Operand::Value(v, _) => const_readable(v),
        Operand::Ref(r, _) => {
            &&& ideal.names().contains_key(r)
            &&& slots_ok(ideal.names()[r].typ)
            &&& forall|j: int| 0 <= j < slot_list(ideal.names()[r]).len() ==> ideal.defs().contains_key(#[trigger] slot_list(ideal.names()[r])[j])
        },
    }
}

/// The value of a variable-free polynomial.
pub open spec fn cval(p: PolyV) -> int {
    eval(p, zero_env()) as int
}

/// No point mentions a variable.
pub open spec fn all_const(ps: Seq<PolyV>) -> bool {
    forall|i: int| 0 <= i < ps.len() ==> #[trigger] poly_vars(ps[i]) == Set::<VarV>::empty()
}

/// Coefficient `k` of the Lagrange basis polynomial `L_i` for the constant
/// points `xv`, reduced; zero beyond the last coefficient.
pub open spec fn lag_coef(xv: Seq<int>, i: int, k: int) -> int {
    let rest = others(xv, i);
    if k < xv.len() {
        (lin_coeffs(rest)[k] * inv(lin_prod(rest, xv[i]))) % (modulus() as int)
    } else {
        0
    }
}

/// `sum_{i < cnt} y_i * lag_coef(xv, i, k)`, unreduced.
pub open spec fn interp_sum(ys: Seq<PolyV>, xv: Seq<int>, k: int, env: Env, cnt: nat) -> int
    decreases cnt,
{
    if cnt == 0 {
        0
    } else {
        interp_sum(ys, xv, k, env, (cnt - 1) as nat) + eval(ys[cnt - 1], env) * lag_coef(xv, cnt - 1, k)
    }
}

/// Values of the coefficients of the polynomial through the points `xv`
/// with values `ys`: slot `k` is `sum_i y_i * L_i[k]`.
pub open spec fn interp_vals(ys: Seq<PolyV>, xv: Seq<int>, nslots: nat) -> Seq<spec_fn(Env) -> int> {
    Seq::new(nslots, |k: int| (|env: Env| interp_sum(ys, xv, k, env, ys.len())))
}

/// Two of the constant points coincide.
pub open spec fn has_duplicate(xv: Seq<int>) -> bool {
    exists|i: int, j: int| 0 <= i < j < xv.len() && #[trigger] xv[i] == #[trigger] xv[j]
}

/// Some Lagrange denominator vanishes in the field.
pub open spec fn singular(xv: Seq<int>) -> bool {
    exists|i: int| 0 <= i < xv.len() && #[trigger] lin_prod(others(xv, i), xv[i]) % (modulus() as int) == 0
}

/// The error for points that coincide.
pub open spec fn duplicate_points_msg() -> Seq<char> {
    "ideal: operation has no polynomial-ideal treatment at duplicate-interpolate-points"@
}

/// Interpolation through constant points: slot `k` of `var` is bound to
/// `sum_i y_i * L_i[k]`, `L_i` the Lagrange basis of the points.
fn interpolate_constant(ideal: &mut Ideal, var: &Var, xs_polys: &Vec<Polynomial>, ys: &Vec<Polynomial>) -> (r: Result<(), String>)
    requires
        old(ideal).wf(),
        all_const(pviews(xs_polys@)),
        xs_polys@.len() == ys@.len(),
        ys@.len() < usize::MAX,
        slots_ok(var.typ@),
    ensures
        r is Ok <==> !has_duplicate(pviews(xs_polys@).map_values(|p: PolyV| cval(p))) && !singular(pviews(xs_polys@).map_values(|p: PolyV| cval(p))),
        r is Ok ==> encodes(*old(ideal), *final(ideal), slot_list(var@), interp_vals(pviews(ys@), pviews(xs_polys@).map_values(|p: PolyV| cval(p)), slot_list(var@).len())),
        r matches Err(e) ==> *final(ideal) == *old(ideal) && e@ == duplicate_points_msg(),
{
    let ghost xv = pviews(xs_polys@).map_values(|p: PolyV| cval(p));
    let ghost yv = pviews(ys@);
    let ghost m = modulus() as int;
    let n = ys.len();
    let mut xs: Vec<Fe> = Vec::new();
    let mut i: usize = 0;
    while i < n
        invariant
            i <= n,
            n == xs_polys@.len(),
            all_const(pviews(xs_polys@)),
            xv == pviews(xs_polys@).map_values(|p: PolyV| cval(p)),
            xs@.len() == i,
            forall|q: int| 0 <= q < i ==> #[trigger] fvals(xs@)[q] == xv[q],
        decreases n - i,
    {
        assert(poly_vars(pviews(xs_polys@)[i as int]) == Set::<VarV>::empty());
        let c = xs_polys[i].constant_value().unwrap();
        proof {
            vstd::arithmetic::div_mod::lemma_small_mod(c.val(), modulus());
            assert(eval(xs_polys@[i as int]@, zero_env()) == c.val());
        }
        let ghost before = xs@;
        xs.push(c);
        proof {
            assert forall|q: int| 0 <= q < i + 1 implies #[trigger] fvals(xs@)[q] == xv[q] by {
                if q < i {
                    assert(xs@[q] == before[q]);
                    assert(fvals(before)[q] == xv[q]);
                } else {
                    assert(xs@[q] == c);
                    assert(pviews(xs_polys@)[q] == xs_polys@[q]@);
                }
            }
        }
        i = i + 1;
    }
    assert(fvals(xs@) =~= xv);
    let mut a: usize = 0;
    while a < n
        invariant
            a <= n,
            n == xs@.len(),
            xv == fvals(xs@),
            xv == pviews(xs_polys@).map_values(|p: PolyV| cval(p)),
            forall|p: int, q: int| 0 <= p < a && p < q < n ==> xv[p] != xv[q],
        decreases n - a,
    {
        let mut b: usize = a + 1;
        while b < n
            invariant
                a < b <= n,
                n == xs@.len(),
                xv == fvals(xs@),
                xv == pviews(xs_polys@).map_values(|p: PolyV| cval(p)),
                forall|p: int, q: int| 0 <= p < a && p < q < n ==> xv[p] != xv[q],
                forall|q: int| a < q < b ==> xv[a as int] != xv[q],
            decreases n - b,
        {
            if xs[a].same(&xs[b]) {
                proof {
                    assert(xv[a as int] == xv[b as int]);
                    assert(has_duplicate(xv));
                }
                return Err("ideal: operation has no polynomial-ideal treatment at duplicate-interpolate-points".to_owned());
            }
            b = b + 1;
        }
        a = a + 1;
    }
    assert(!has_duplicate(xv));
    let lag = match lagrange_basis(xs.as_slice()) {
        Some(l) => l,
        None => {
            proof {
                let t = choose|t: int| 0 <= t < xv.len() && !(lin_prod(others(fvals(xs@), t), fvals(xs@)[t]) % (modulus() as int) != 0);
                assert(lin_prod(others(xv, t), xv[t]) % m == 0);
                assert(singular(xv));
            }
            return Err("ideal: operation has no polynomial-ideal treatment at duplicate-interpolate-points".to_owned());
        },
    };
    let pr_slots = var.slots();
    let ghost nslots = slot_list(var@).len();
    let ghost want = interp_vals(yv, xv, nslots);
    let mut polys: Vec<Polynomial> = Vec::new();
    let mut k: usize = 0;
    while k < pr_slots.len()
        invariant
            k <= pr_slots@.len(),
            pr_slots@.len() == nslots,
            n == ys@.len(),
            n == xs@.len(),
            xv == fvals(xs@),
            yv == pviews(ys@),
            m == modulus() as int,
            lag@.len() == n,
            forall|q: int| 0 <= q < n ==> #[trigger] lag_row(lag@[q]@, xv, q),
            polys@.len() == k,
            forall|q: int, env: Env| 0 <= q < k ==> #[trigger] eval(polys@[q]@, env) == interp_sum(yv, xv, q, env, n as nat) % m,
        decreases pr_slots@.len() - k,
    {
        let mut acc = Polynomial::zero();
        let mut q: usize = 0;
        while q < n
            invariant
                q <= n,
                n == ys@.len(),
                n == xs@.len(),
                yv == pviews(ys@),
                xv == fvals(xs@),
                m == modulus() as int,
                lag@.len() == n,
                forall|t: int| 0 <= t < n ==> #[trigger] lag_row(lag@[t]@, xv, t),
                forall|env: Env| #[trigger] eval(acc@, env) == interp_sum(yv, xv, k as int, env, q as nat) % m,
            decreases n - q,
        {
            assert(lag_row(lag@[q as int]@, xv, q as int));
            if k < lag[q].len() && !lag[q][k].is_zero() {
                let w = Polynomial::lit(&lag[q][k]);
                let term = ys[q].mul(&w);
                let next = acc.add(&term);
                proof {
                    assert forall|env: Env| #[trigger] eval(next@, env) == interp_sum(yv, xv, k as int, env, (q + 1) as nat) % m by {
                        let s0 = interp_sum(yv, xv, k as int, env, q as nat);
                        let y = eval(yv[q as int], env) as int;
                        let l = lag_coef(xv, q as int, k as int);
                        assert(lag@[q as int]@[k as int].val() == l);
                        vstd::arithmetic::div_mod::lemma_small_mod(l as nat, modulus());
                        assert(eval(term@, env) == (y * l) % m);
                        vstd::arithmetic::div_mod::lemma_add_mod_noop(s0, y * l, m);
                        vstd::arithmetic::div_mod::lemma_mod_twice(s0, m);
                        vstd::arithmetic::div_mod::lemma_mod_twice(y * l, m);
                    }
                }
                acc = next;
            } else {
                proof {
                    assert forall|env: Env| #[trigger] eval(acc@, env) == interp_sum(yv, xv, k as int, env, (q + 1) as nat) % m by {
                        let l = lag_coef(xv, q as int, k as int);
                        if k < lag@[q as int]@.len() {
                            assert(lag@[q as int]@[k as int].val() == l);
                            assert(l == 0);
                        } else {
                            assert(l == 0);
                        }
                        assert(eval(yv[q as int], env) * l == 0);
                    }
                }
            }
            q = q + 1;
        }
        polys.push(acc);
        k = k + 1;
    }
    let ghost got = poly_vals(pviews(polys@));
    link_to_polys(ideal, var, polys);
    proof {
        assert forall|t: int, env: Env| 0 <= t < want.len() implies #[trigger] (got[t](env) % m) == want[t](env) % m by {
            assert(got[t](env) == eval(polys@[t]@, env) as int);
            vstd::arithmetic::div_mod::lemma_mod_twice(want[t](env), m);
        }
        crate::arith::lemma_encodes_vals(*old(ideal), *ideal, slot_list(var@), got, want);
    }
    Ok(())
}

/// The values of the polynomials `ps` under `env`.
pub open spec fn pevals(ps: Seq<PolyV>, env: Env) -> Seq<int> {
    ps.map_values(|p: PolyV| eval(p, env) as int)
}

/// `vals` holds the residues of `c`, one by one.
pub open spec fn reduces_v(vals: Seq<int>, c: Seq<int>) -> bool {
    &&& vals.len() == c.len()
    &&& forall|d: int| 0 <= d < vals.len() ==> #[trigger] vals[d] == c[d] % (modulus() as int)
}

/// Multiplying congruent coefficient lists by congruent linear factors
/// gives congruent lists.
proof fn lemma_mul_lin_cong_v(sv: Seq<int>, c: Seq<int>, x: int, x2: int, rv: Seq<int>)
    requires
        reduces_v(sv, c),
        x % (modulus() as int) == x2 % (modulus() as int),
        reduces_v(rv, mul_lin(sv, x)),
    ensures
        reduces_v(rv, mul_lin(c, x2)),
{
    let m = modulus() as int;
    assert forall|d: int| 0 <= d < rv.len() implies #[trigger] rv[d] == mul_lin(c, x2)[d] % m by {
        assert(cz(sv, d - 1) % m == cz(c, d - 1) % m) by {
            if 0 <= d - 1 < sv.len() {
                vstd::arithmetic::div_mod::lemma_mod_twice(c[d - 1], m);
            }
        }
        assert(cz(sv, d) % m == cz(c, d) % m) by {
            if 0 <= d < sv.len() {
                vstd::arithmetic::div_mod::lemma_mod_twice(c[d], m);
            }
        }
        lemma_cong_lin(cz(sv, d - 1), cz(c, d - 1), cz(sv, d), cz(c, d), x, x2, m);
    }
}

/// `poly * (X - x)` over polynomial coefficients: coefficient `d` is
/// `poly[d - 1] - x * poly[d]`.
fn mul_linear_poly(poly: &Vec<Polynomial>, x: &Polynomial) -> (r: Vec<Polynomial>)
    requires
        poly@.len() < usize::MAX,
    ensures
        forall|env: Env| #[trigger] reduces_v(pevals(pviews(r@), env), mul_lin(pevals(pviews(poly@), env), eval(x@, env) as int)),
{
    let len = poly.len();
    let mut out: Vec<Polynomial> = Vec::new();
    let mut d: usize = 0;
    while d <= len
        invariant
            d <= len + 1,
            len == poly@.len(),
            len < usize::MAX,
            out@.len() == d,
            forall|q: int, env: Env| 0 <= q < d ==> #[trigger] eval(out@[q]@, env)
                == mul_lin(pevals(pviews(poly@), env), eval(x@, env) as int)[q] % (modulus() as int),
        decreases len + 1 - d,
    {
        let lo = if d > 0 {
            poly[d - 1].clone()
        } else {
            Polynomial::zero()
        };
        let hi = if d < len {
            poly[d].clone()
        } else {
            Polynomial::zero()
        };
        let v = lo.sub(&x.mul(&hi));
        proof {
            assert forall|env: Env| #[trigger] eval(v@, env)
                == mul_lin(pevals(pviews(poly@), env), eval(x@, env) as int)[d as int] % (modulus() as int) by {
                let m = modulus() as int;
                let c = pevals(pviews(poly@), env);
                assert(eval(lo@, env) as int == cz(c, d - 1)) by {
                    if d > 0 {
                        assert(pviews(poly@)[d - 1] == poly@[d - 1]@);
                    } else {
                        vstd::arithmetic::div_mod::lemma_small_mod(0, modulus());
                    }
                }
                assert(eval(hi@, env) as int == cz(c, d as int)) by {
                    if d < len {
                        assert(pviews(poly@)[d as int] == poly@[d as int]@);
                    } else {
                        vstd::arithmetic::div_mod::lemma_small_mod(0, modulus());
                    }
                }
                let y = (eval(x@, env) * eval(hi@, env)) as int;
                vstd::arithmetic::div_mod::lemma_small_mod(eval(lo@, env), modulus());
                crate::polyv::lemma_mod_diff(eval(lo@, env) as int, y, m);
            }
        }
        out.push(v);
        d = d + 1;
    }
    out
}

/// Points `i` and `j` take the same value under every assignment.
pub open spec fn coincide(xs: Seq<PolyV>, i: int, j: int) -> bool {
    forall|env: Env| #[trigger] eval(xs[i], env) == eval(xs[j], env)
}

/// The difference of points `i` and `j`, as written.
pub open spec fn diff_poly(xs: Seq<PolyV>, i: int, j: int) -> PolyV {
    PolyV::Sub(Box::new(xs[i]), Box::new(xs[j]))
}

/// Two distinct points whose difference is, in canonical form, zero.
pub open spec fn formally_coincide(xs: Seq<PolyV>) -> bool {
    exists|i: int, j: int| 0 <= i < xs.len() && 0 <= j < xs.len() && i != j && #[trigger] formally_zero(diff_poly(xs, i, j))
}

/// Two distinct points take the same value under every assignment.
pub open spec fn some_coincide(xs: Seq<PolyV>) -> bool {
    exists|i: int, j: int| 0 <= i < xs.len() && 0 <= j < xs.len() && i != j && #[trigger] coincide(xs, i, j)
}

/// `u` inverts the difference of points `i` and `j` under `env`.
pub open spec fn inverts_at(xs: Seq<PolyV>, i: int, j: int, u: nat, env: Env) -> bool {
    ((eval(xs[i], env) - eval(xs[j], env)) * u) % (modulus() as int) == 1
}

/// `u` inverts the difference of points `i` and `j` under every assignment.
pub open spec fn inverts(xs: Seq<PolyV>, i: int, j: int, u: nat) -> bool {
    forall|env: Env| #[trigger] inverts_at(xs, i, j, u, env)
}

/// For each ordered pair of distinct points whose difference is, in
/// canonical form, a constant, the inverse of that constant; `Err` when a
/// difference is, in canonical form, zero.
fn constant_inverses(xs: &Vec<Polynomial>) -> (r: Result<Vec<Vec<Option<Fe>>>, ()>)
    ensures
        r is Err <==> formally_coincide(pviews(xs@)),
        r is Err ==> some_coincide(pviews(xs@)),
        r matches Ok(t) ==> {
            &&& t@.len() == xs@.len()
            &&& forall|i: int| 0 <= i < t@.len() ==> #[trigger] t@[i]@.len() == xs@.len()
            &&& forall|i: int, j: int| #![trigger t@[i]@[j]] 0 <= i < t@.len() && 0 <= j < xs@.len() && t@[i]@[j] is Some ==> i != j && inverts(pviews(xs@), i, j, t@[i]@[j]->0.val())
        },
{
    let ghost xv = pviews(xs@);
    let ghost m = modulus() as int;
    let n = xs.len();
    let mut table: Vec<Vec<Option<Fe>>> = Vec::new();
    let mut i: usize = 0;
    while i < n
        invariant
            i <= n,
            n == xs@.len(),
            xv == pviews(xs@),
            m == modulus() as int,
            table@.len() == i,
            forall|a: int| 0 <= a < i ==> #[trigger] table@[a]@.len() == n,
            forall|a: int, b: int| #![trigger table@[a]@[b]] 0 <= a < i && 0 <= b < n && table@[a]@[b] is Some ==> a != b && inverts(xv, a, b, table@[a]@[b]->0.val()),
            forall|a: int, b: int| 0 <= a < i && 0 <= b < n && a != b ==> !formally_zero(#[trigger] diff_poly(xv, a, b)),
        decreases n - i,
    {
        let mut row: Vec<Option<Fe>> = Vec::new();
        let mut j: usize = 0;
        while j < n
            invariant
                j <= n,
                i < n,
                n == xs@.len(),
                xv == pviews(xs@),
                m == modulus() as int,
                row@.len() == j,
                forall|b: int| #![trigger row@[b]] 0 <= b < j && row@[b] is Some ==> i != b && inverts(xv, i as int, b, row@[b]->0.val()),
                forall|a: int, b: int| 0 <= a < i && 0 <= b < n && a != b ==> !formally_zero(#[trigger] diff_poly(xv, a, b)),
                forall|b: int| 0 <= b < j && b != i ==> !formally_zero(#[trigger] diff_poly(xv, i as int, b)),
            decreases n - j,
        {
            let ghost before = row@;
            if j == i {
                row.push(None);
            } else {
                let diff = Polynomial::Sub(Box::new(xs[i].clone()), Box::new(xs[j].clone()));
                proof {
                    assert(xv[i as int] == xs@[i as int]@);
                    assert(xv[j as int] == xs@[j as int]@);
                    assert(diff@ == diff_poly(xv, i as int, j as int));
                }
                match constancy(&diff) {
                    Constancy::Constant(c) => {
                        proof {
                            lemma_formally_const_eval(diff@, c.val());
                        }
                        if c.is_zero() {
                            proof {
                                assert(formally_zero(diff_poly(xv, i as int, j as int)));
                                assert forall|env: Env| #[trigger] eval(xv[i as int], env) == eval(xv[j as int], env) by {
                                    assert(eval(diff@, env) == 0);
                                    crate::polyv::lemma_mod_diff(eval(xv[i as int], env) as int, eval(xv[j as int], env) as int, m);
                                    vstd::arithmetic::div_mod::lemma_small_mod(eval(xv[i as int], env), modulus());
                                    vstd::arithmetic::div_mod::lemma_small_mod(eval(xv[j as int], env), modulus());
                                    lemma_small_diff_zero(eval(xv[i as int], env) as int, eval(xv[j as int], env) as int, m);
                                }
                                assert(coincide(xv, i as int, j as int));
                            }
                            return Err(());
                        }
                        let u = match c.inverse() {
                            Some(u) => u,
                            None => {
                                proof {
                                    assert(false);
                                }
                                return Err(());
                            },
                        };
                        proof {
                            assert forall|env: Env| #[trigger] inverts_at(xv, i as int, j as int, u.val(), env) by {
                                let a = eval(xv[i as int], env) as int;
                                let b = eval(xv[j as int], env) as int;
                                assert(eval(diff@, env) == c.val());
                                vstd::arithmetic::div_mod::lemma_small_mod(a as nat, modulus());
                                vstd::arithmetic::div_mod::lemma_small_mod(b as nat, modulus());
                                crate::polyv::lemma_mod_diff(a, b, m);
                                assert(c.val() as int == (a - b) % m);
                                vstd::arithmetic::div_mod::lemma_mul_mod_noop_left(a - b, u.val() as int, m);
                            }
                            assert(!formally_zero(diff_poly(xv, i as int, j as int))) by {
                                if formally_zero(diff_poly(xv, i as int, j as int)) {
                                    crate::formal::lemma_formally_const_unique(diff@, c.val(), 0);
                                }
                            }
                        }
                        row.push(Some(u));
                    },
                    _ => {
                        row.push(None);
                    },
                }
            }
            proof {
                assert(row@[j as int] is Some ==> inverts(xv, i as int, j as int, row@[j as int]->0.val()));
                assert forall|b: int| #![trigger row@[b]] 0 <= b < j + 1 && row@[b] is Some implies i != b && inverts(xv, i as int, b, row@[b]->0.val()) by {
                    if b < j {
                        assert(row@[b] == before[b]);
                        assert(before[b] is Some);
                    }
                }
            }
            j = j + 1;
        }
        let ghost tbefore = table@;
        table.push(row);
        proof {
            assert forall|a: int, b: int| #![trigger table@[a]@[b]] 0 <= a < i + 1 && 0 <= b < n && table@[a]@[b] is Some implies a != b && inverts(xv, a, b, table@[a]@[b]->0.val()) by {
                if a < i {
                    assert(table@[a] == tbefore[a]);
                }
            }
        }
        i = i + 1;
    }
    proof {
        if formally_coincide(xv) {
            let (a, b) = choose|a: int, b: int| 0 <= a < xv.len() && 0 <= b < xv.len() && a != b && #[trigger] formally_zero(diff_poly(xv, a, b));
        }
    }
    Ok(table)
}

/// Two residues congruent modulo `m` are equal.
proof fn lemma_small_diff_zero(a: int, b: int, m: int)
    requires
        0 <= a < m,
        0 <= b < m,
        (a - b) % m == 0,
    ensures
        a == b,
{
    if a > b {
        vstd::arithmetic::div_mod::lemma_small_mod((a - b) as nat, m as nat);
    } else if a < b {
        vstd::arithmetic::div_mod::lemma_mod_add_multiples_vanish(a - b, m);
        vstd::arithmetic::div_mod::lemma_small_mod((m + (a - b)) as nat, m as nat);
    }
}

/// Generators `g0 .. g0 + cnt` all vanish under `env`.
pub open spec fn sat(ideal: Ideal, g0: nat, cnt: nat, env: Env) -> bool {
    forall|t: int| 0 <= t < cnt ==> #[trigger] eval(ideal.gens()[g0 + t], env) == 0
}

/// `g` is, in value, `d * (x_i - x_j) - 1`.
pub open spec fn inv_gen(g: PolyV, d: VarV, xs: Seq<PolyV>, i: int, j: int) -> bool {
    forall|env: Env| #[trigger] eval(g, env) as int == ((env(d) % modulus()) * (eval(xs[i], env) - eval(xs[j], env)) - 1) % (modulus() as int)
}

/// Generator `g0 + t` of `ideal` is, in value, `d * (x_i - x_j) - 1` for
/// the variable `d` introduced `t`-th after position `o0`, and some pair of
/// distinct points `i`, `j`.
pub open spec fn inv_gen_at(ideal: Ideal, g0: nat, o0: nat, t: int, xs: Seq<PolyV>) -> bool {
    exists|i: int, j: int|
        0 <= i < xs.len() && 0 <= j < xs.len() && i != j
            && #[trigger] inv_gen(ideal.gens()[g0 + t], ideal.var_order@[o0 + t]@, xs, i, j)
}

/// A fresh scalar local introduced by the encoder.
pub open spec fn fresh_scalar(v: VarV) -> bool {
    &&& v.index.len() == 0
    &&& v.typ == crate::typ::TypV::Base(crate::typ::ABase::Scalar)
    &&& v.qualifier == crate::var::Qualifier::Local
}

proof fn lemma_inv_gen_value(g: PolyV, dv: nat, xi: nat, xj: nat, diff: nat, prod: nat, e: nat)
    requires
        xi < modulus(),
        xj < modulus(),
        diff == ((xi + modulus() - xj) as nat) % modulus(),
        prod == ((dv % modulus()) * diff) % modulus(),
        e == ((prod + modulus() - 1nat) as nat) % modulus(),
    ensures
        e as int == ((dv % modulus()) * (xi - xj) - 1) % (modulus() as int),
{
    let m = modulus() as int;
    let ed = (dv % modulus()) as int;
    crate::polyv::lemma_mod_diff(xi as int, xj as int, m);
    vstd::arithmetic::div_mod::lemma_small_mod(xi, modulus());
    vstd::arithmetic::div_mod::lemma_small_mod(xj, modulus());
    assert(diff as int == (xi - xj) % m);
    vstd::arithmetic::div_mod::lemma_mul_mod_noop_right(ed, xi - xj, m);
    assert(prod as int == (ed * (xi - xj)) % m);
    vstd::arithmetic::div_mod::lemma_small_mod(1, modulus());
    crate::polyv::lemma_mod_diff(ed * (xi - xj), 1, m);
    vstd::arithmetic::div_mod::lemma_mod_twice(ed * (xi - xj), m);
}

/// A vanishing inverse generator makes its variable invert the difference.
proof fn lemma_inv_gen_sat(g: PolyV, d: VarV, xs: Seq<PolyV>, i: int, j: int, env: Env)
    requires
        inv_gen(g, d, xs, i, j),
        eval(g, env) == 0,
    ensures
        inverts_at(xs, i, j, env(d) % modulus(), env),
{
    let m = modulus() as int;
    let ed = (env(d) % modulus()) as int;
    let dd = eval(xs[i], env) - eval(xs[j], env);
    assert((ed * dd - 1) % m == 0);
    vstd::arithmetic::div_mod::lemma_fundamental_div_mod(ed * dd - 1, m);
    vstd::arithmetic::div_mod::lemma_fundamental_div_mod(ed * dd, m);
    let q = (ed * dd - 1) / m;
    assert(ed * dd == m * q + 1);
    vstd::arithmetic::div_mod::lemma_mod_multiples_vanish(q, 1, m);
    vstd::arithmetic::div_mod::lemma_small_mod(1, modulus());
    assert((dd * ed) == (ed * dd)) by (nonlinear_arith);
}

/// For each ordered pair of distinct points whose difference is not a
/// constant, in order, a fresh scalar sentinel `d` named `interp_inv` and
/// the generator `d * (x_i - x_j) - 1`.
fn inverse_sentinels(builder: &mut IdealBuilder, ideal: &mut Ideal, xs: &Vec<Polynomial>, table: &Vec<Vec<Option<Fe>>>) -> (dmat: Vec<Vec<Option<Var>>>)
    requires
        old(builder).ns.wf(),
        old(ideal).wf(),
        table@.len() == xs@.len(),
        forall|i: int| 0 <= i < table@.len() ==> #[trigger] table@[i]@.len() == xs@.len(),
        xs@.len() * xs@.len() < old(builder).ns.next_sentinel(),
        old(builder).ns.count("interp_inv"@) + xs@.len() * xs@.len() < usize::MAX,
    ensures
        ({
            let g0 = old(ideal).gens().len();
            let o0 = old(ideal).var_order@.len();
            let ninv = (final(ideal).var_order@.len() - o0) as nat;
            &&& final(ideal).wf()
            &&& final(ideal).pl == old(ideal).pl
            &&& final(ideal).vars == old(ideal).vars
            &&& final(ideal).var_order@.len() >= o0
            &&& forall|t: int| 0 <= t < o0 ==> #[trigger] final(ideal).var_order@[t] == old(ideal).var_order@[t]
            &&& final(ideal).gens().len() == g0 + ninv
            &&& forall|t: int| 0 <= t < g0 ==> #[trigger] final(ideal).gens()[t] == old(ideal).gens()[t]
            &&& forall|t: int| 0 <= t < ninv ==> fresh_scalar(#[trigger] final(ideal).var_order@[o0 + t]@)
            &&& forall|t: int| 0 <= t < ninv ==> #[trigger] inv_gen_at(*final(ideal), g0, o0, t, pviews(xs@))
            &&& dmat@.len() == xs@.len()
            &&& forall|i: int| 0 <= i < dmat@.len() ==> #[trigger] dmat@[i]@.len() == xs@.len()
            &&& forall|i: int, j: int| #![trigger dmat@[i]@[j]] 0 <= i < xs@.len() && 0 <= j < xs@.len() && i != j && table@[i]@[j] is None ==> dmat@[i]@[j] is Some
            &&& forall|i: int, j: int, env: Env| #![trigger dmat@[i]@[j], sat(*final(ideal), g0, ninv, env)]
                0 <= i < xs@.len() && 0 <= j < xs@.len() && dmat@[i]@[j] is Some && sat(*final(ideal), g0, ninv, env)
                    ==> i != j && inverts_at(pviews(xs@), i, j, env(dmat@[i]@[j]->0@) % modulus(), env)
            &&& final(builder).ns.wf()
            &&& final(builder).ns.count("interp_inv"@) == old(builder).ns.count("interp_inv"@) + ninv
            &&& forall|k: Seq<char>| k != "interp_inv"@ ==> #[trigger] final(builder).ns.count(k) == old(builder).ns.count(k)
            &&& final(builder).ns.next_sentinel() + ninv == old(builder).ns.next_sentinel()
            &&& ninv <= xs@.len() * xs@.len()
        }),
{
    let ghost xv = pviews(xs@);
    let ghost m = modulus() as int;
    let ghost g0 = ideal.gens().len();
    let ghost o0 = ideal.var_order@.len();
    let ghost start = *ideal;
    let ghost bstart = *builder;
    let n = xs.len();
    let one = Polynomial::lit(&Fe::one());
    let mut dmat: Vec<Vec<Option<Var>>> = Vec::new();
    let mut cnt: usize = 0;
    let mut i: usize = 0;
    while i < n
        invariant
            i <= n,
            n == xs@.len(),
            xv == pviews(xs@),
            m == modulus() as int,
            one@ == crate::polyv::lit(1),
            table@.len() == n,
            forall|a: int| 0 <= a < n ==> #[trigger] table@[a]@.len() == n,
            n * n < bstart.ns.next_sentinel(),
            bstart.ns.count("interp_inv"@) + n * n < usize::MAX,
            cnt <= i * n,
            ideal.wf(),
            ideal.pl == start.pl,
            ideal.vars == start.vars,
            ideal.var_order@.len() == o0 + cnt,
            forall|t: int| 0 <= t < o0 ==> #[trigger] ideal.var_order@[t] == start.var_order@[t],
            ideal.gens().len() == g0 + cnt,
            forall|t: int| 0 <= t < g0 ==> #[trigger] ideal.gens()[t] == start.gens()[t],
            forall|t: int| 0 <= t < cnt ==> fresh_scalar(#[trigger] ideal.var_order@[o0 + t]@),
            forall|t: int| 0 <= t < cnt ==> #[trigger] inv_gen_at(*ideal, g0, o0, t, xv),
            dmat@.len() == i,
            forall|a: int| 0 <= a < i ==> #[trigger] dmat@[a]@.len() == n,
            forall|a: int, b: int| #![trigger dmat@[a]@[b]] 0 <= a < i && 0 <= b < n && a != b && table@[a]@[b] is None ==> dmat@[a]@[b] is Some,
            forall|a: int, b: int, env: Env| #![trigger dmat@[a]@[b], sat(*ideal, g0, cnt as nat, env)]
                0 <= a < i && 0 <= b < n && dmat@[a]@[b] is Some && sat(*ideal, g0, cnt as nat, env)
                    ==> a != b && inverts_at(xv, a, b, env(dmat@[a]@[b]->0@) % modulus(), env),
            builder.ns.wf(),
            builder.ns.count("interp_inv"@) == bstart.ns.count("interp_inv"@) + cnt,
            forall|k: Seq<char>| k != "interp_inv"@ ==> #[trigger] builder.ns.count(k) == bstart.ns.count(k),
            builder.ns.next_sentinel() + cnt == bstart.ns.next_sentinel(),
        decreases n - i,
    {
        let mut row: Vec<Option<Var>> = Vec::new();
        let mut j: usize = 0;
        while j < n
            invariant
                j <= n,
                i < n,
                n == xs@.len(),
                xv == pviews(xs@),
                m == modulus() as int,
                one@ == crate::polyv::lit(1),
                table@.len() == n,
                forall|a: int| 0 <= a < n ==> #[trigger] table@[a]@.len() == n,
                n * n < bstart.ns.next_sentinel(),
                bstart.ns.count("interp_inv"@) + n * n < usize::MAX,
                cnt <= i * n + j,
                ideal.wf(),
                ideal.pl == start.pl,
                ideal.vars == start.vars,
                ideal.var_order@.len() == o0 + cnt,
                forall|t: int| 0 <= t < o0 ==> #[trigger] ideal.var_order@[t] == start.var_order@[t],
                ideal.gens().len() == g0 + cnt,
                forall|t: int| 0 <= t < g0 ==> #[trigger] ideal.gens()[t] == start.gens()[t],
                forall|t: int| 0 <= t < cnt ==> fresh_scalar(#[trigger] ideal.var_order@[o0 + t]@),
                forall|t: int| 0 <= t < cnt ==> #[trigger] inv_gen_at(*ideal, g0, o0, t, xv),
                dmat@.len() == i,
                forall|a: int| 0 <= a < i ==> #[trigger] dmat@[a]@.len() == n,
                forall|a: int, b: int| #![trigger dmat@[a]@[b]] 0 <= a < i && 0 <= b < n && a != b && table@[a]@[b] is None ==> dmat@[a]@[b] is Some,
                forall|a: int, b: int, env: Env| #![trigger dmat@[a]@[b], sat(*ideal, g0, cnt as nat, env)]
                    0 <= a < i && 0 <= b < n && dmat@[a]@[b] is Some && sat(*ideal, g0, cnt as nat, env)
                        ==> a != b && inverts_at(xv, a, b, env(dmat@[a]@[b]->0@) % modulus(), env),
                row@.len() == j,
                forall|b: int| #![trigger row@[b]] 0 <= b < j && b != i && table@[i as int]@[b] is None ==> row@[b] is Some,
                forall|b: int, env: Env| #![trigger row@[b], sat(*ideal, g0, cnt as nat, env)]
                    0 <= b < j && row@[b] is Some && sat(*ideal, g0, cnt as nat, env)
                        ==> i != b && inverts_at(xv, i as int, b, env(row@[b]->0@) % modulus(), env),
                builder.ns.wf(),
                builder.ns.count("interp_inv"@) == bstart.ns.count("interp_inv"@) + cnt,
                forall|k: Seq<char>| k != "interp_inv"@ ==> #[trigger] builder.ns.count(k) == bstart.ns.count(k),
                builder.ns.next_sentinel() + cnt == bstart.ns.next_sentinel(),
            decreases n - j,
        {
            let ghost rbefore = row@;
            let ghost before = *ideal;
            let ghost cnt0 = cnt as nat;
            if j == i || table[i][j].is_some() {
                row.push(None);
                proof {
                    assert forall|b: int| #![trigger row@[b]] 0 <= b < j + 1 && b != i && table@[i as int]@[b] is None implies row@[b] is Some by {
                        assert(row@[b] == rbefore[b]);
                    }
                    assert forall|b: int, env: Env| #![trigger row@[b], sat(*ideal, g0, cnt as nat, env)]
                        0 <= b < j + 1 && row@[b] is Some && sat(*ideal, g0, cnt as nat, env)
                            implies i != b && inverts_at(xv, i as int, b, env(row@[b]->0@) % modulus(), env) by {
                        assert(row@[b] == rbefore[b]);
                    }
                }
            } else {
                proof {
                    assert(cnt + 1 <= n * n) by (nonlinear_arith)
                        requires
                            cnt <= i * n + j,
                            i < n,
                            j < n,
                    ;
                }
                let diff = xs[i].sub(&xs[j]);
                let name = builder.ns.next_name("interp_inv");
                let d = builder.sentinel_var(&name, ATyp::scalar(), ideal);
                let dvar = Polynomial::var(&d);
                let pr = dvar.mul(&diff);
                let g = pr.sub(&one);
                let ghost gb = ideal.generating_set@;
                ideal.generating_set.push(g);
                proof {
                    assert(ideal.gens() =~= pviews(gb).push(g@));
                    assert(inv_gen(g@, d@, xv, i as int, j as int)) by {
                        assert forall|env: Env| #[trigger] eval(g@, env) as int == ((env(d@) % modulus()) * (eval(xv[i as int], env) - eval(xv[j as int], env)) - 1) % m by {
                            assert(xv[i as int] == xs@[i as int]@);
                            assert(xv[j as int] == xs@[j as int]@);
                            let xi = eval(xv[i as int], env);
                            let xj = eval(xv[j as int], env);
                            assert(eval(dvar@, env) == env(d@) % modulus());
                            assert(eval(one@, env) == 1) by {
                                vstd::arithmetic::div_mod::lemma_small_mod(1, modulus());
                            }
                            lemma_inv_gen_value(g@, env(d@), xi, xj, eval(diff@, env), eval(pr@, env), eval(g@, env));
                        }
                    }
                }
                row.push(Some(d));
                cnt = cnt + 1;
                proof {
                    assert(ideal.gens()[(g0 + cnt0) as int] == g@);
                    assert(ideal.var_order@[(o0 + cnt0) as int]@ == d@);
                    assert forall|t: int| 0 <= t < cnt implies fresh_scalar(#[trigger] ideal.var_order@[o0 + t]@) by {
                        if t < cnt0 {
                            assert(ideal.var_order@[o0 + t] == before.var_order@[o0 + t]);
                        }
                    }
                    assert forall|t: int| 0 <= t < cnt implies #[trigger] inv_gen_at(*ideal, g0, o0, t, xv) by {
                        if t < cnt0 {
                            assert(ideal.var_order@[o0 + t] == before.var_order@[o0 + t]);
                            assert(ideal.gens()[g0 + t] == before.gens()[g0 + t]);
                            assert(inv_gen_at(before, g0, o0, t, xv));
                            let (a, b) = choose|a: int, b: int|
                                0 <= a < xv.len() && 0 <= b < xv.len() && a != b
                                    && #[trigger] inv_gen(before.gens()[g0 + t], before.var_order@[o0 + t]@, xv, a, b);
                            assert(inv_gen(ideal.gens()[g0 + t], ideal.var_order@[o0 + t]@, xv, a, b));
                        } else {
                            assert(inv_gen(ideal.gens()[g0 + t], ideal.var_order@[o0 + t]@, xv, i as int, j as int));
                        }
                    }
                    assert forall|env: Env| sat(*ideal, g0, cnt as nat, env) implies #[trigger] sat(before, g0, cnt0, env) by {
                        assert forall|t: int| 0 <= t < cnt0 implies #[trigger] eval(before.gens()[g0 + t], env) == 0 by {
                            assert(ideal.gens()[g0 + t] == before.gens()[g0 + t]);
                        }
                    }
                    assert forall|a: int, b: int, env: Env| #![trigger dmat@[a]@[b], sat(*ideal, g0, cnt as nat, env)]
                        0 <= a < i && 0 <= b < n && dmat@[a]@[b] is Some && sat(*ideal, g0, cnt as nat, env)
                            implies a != b && inverts_at(xv, a, b, env(dmat@[a]@[b]->0@) % modulus(), env) by {
                        assert(sat(before, g0, cnt0, env));
                    }
                    assert forall|b: int| #![trigger row@[b]] 0 <= b < j + 1 && b != i && table@[i as int]@[b] is None implies row@[b] is Some by {
                        if b < j {
                            assert(row@[b] == rbefore[b]);
                        }
                    }
                    assert forall|b: int, env: Env| #![trigger row@[b], sat(*ideal, g0, cnt as nat, env)]
                        0 <= b < j + 1 && row@[b] is Some && sat(*ideal, g0, cnt as nat, env)
                            implies i != b && inverts_at(xv, i as int, b, env(row@[b]->0@) % modulus(), env) by {
                        if b < j {
                            assert(row@[b] == rbefore[b]);
                            assert(sat(before, g0, cnt0, env));
                        } else {
                            assert(eval(ideal.gens()[(g0 + cnt0) as int], env) == 0);
                            lemma_inv_gen_sat(g@, d@, xv, i as int, j as int, env);
                        }
                    }
                }
            }
            j = j + 1;
        }
        let ghost dbefore = dmat@;
        dmat.push(row);
        proof {
            assert forall|a: int| 0 <= a < i + 1 implies #[trigger] dmat@[a]@.len() == n by {
                if a < i {
                    assert(dmat@[a] == dbefore[a]);
                }
            }
            assert forall|a: int, b: int| #![trigger dmat@[a]@[b]] 0 <= a < i + 1 && 0 <= b < n && a != b && table@[a]@[b] is None implies dmat@[a]@[b] is Some by {
                if a < i {
                    assert(dmat@[a] == dbefore[a]);
                }
            }
            assert forall|a: int, b: int, env: Env| #![trigger dmat@[a]@[b], sat(*ideal, g0, cnt as nat, env)]
                0 <= a < i + 1 && 0 <= b < n && dmat@[a]@[b] is Some && sat(*ideal, g0, cnt as nat, env)
                    implies a != b && inverts_at(xv, a, b, env(dmat@[a]@[b]->0@) % modulus(), env) by {
                if a < i {
                    assert(dmat@[a] == dbefore[a]);
                }
            }
            assert(cnt <= (i + 1) * n) by (nonlinear_arith)
                requires
                    cnt <= i * n + n,
            ;
        }
        i = i + 1;
    }
    proof {
        assert(cnt <= n * n);
    }
    dmat
}

/// `prod_{j' < j, j' != i} inv(xv[i] - xv[j'])`.
pub open spec fn inv_prod(xv: Seq<int>, i: int, j: int) -> int
    decreases j,
{
    if j <= 0 {
        1
    } else if j - 1 == i {
        inv_prod(xv, i, j - 1)
    } else {
        inv_prod(xv, i, j - 1) * inv(xv[i] - xv[j - 1])
    }
}

/// `sum_{i < cnt} y_i * c_i[k] * prod_{j != i} inv(x_i - x_j)`, `c_i` the
/// coefficients of `prod_{j != i} (X - x_j)`: coefficient `k` of the
/// polynomial through the points `xv` with values `yv`, unreduced.
pub open spec fn sym_sum(yv: Seq<int>, xv: Seq<int>, k: int, cnt: nat) -> int
    decreases cnt,
{
    if cnt == 0 {
        0
    } else {
        let i = cnt - 1;
        sym_sum(yv, xv, k, (cnt - 1) as nat) + yv[i] * (cz(lin_coeffs(others(xv, i)), k) * inv_prod(xv, i, xv.len() as int))
    }
}

proof fn lemma_others_len(xv: Seq<int>, i: int)
    requires
        0 <= i < xv.len(),
    ensures
        others(xv, i).len() == xv.len() - 1,
        lin_coeffs(others(xv, i)).len() == xv.len(),
{
    lemma_lin_coeffs_len(others(xv, i));
}

/// What symbolic interpolation into `var` leaves behind, from builder `b0`
/// and ideal `i0` to `b1` and `i1`: fresh scalar locals, one generator
/// `d * (x_i - x_j) - 1` for each, then the slots of `var` bound as
/// [`crate::encode::binds`] says, to values that, wherever those generators
/// vanish, are the coefficients of the polynomial through the points `xs`
/// with values `ys`.
pub open spec fn sym_interp_done(b0: IdealBuilder, b1: IdealBuilder, i0: Ideal, i1: Ideal, var: VarV, xs: Seq<PolyV>, ys: Seq<PolyV>) -> bool {
    let g0 = i0.gens().len();
    let o0 = i0.var_order@.len();
    let ninv = (i1.var_order@.len() - o0) as nat;
    let slots = slot_list(var);
    &&& i1.wf()
    &&& i1.names() == i0.names()
    &&& i1.var_order@.len() >= o0
    &&& forall|t: int| 0 <= t < o0 ==> #[trigger] i1.var_order@[t] == i0.var_order@[t]
    &&& forall|t: int| 0 <= t < ninv ==> fresh_scalar(#[trigger] i1.var_order@[o0 + t]@)
    &&& i1.gens().len() == g0 + ninv + slots.len()
    &&& forall|t: int| 0 <= t < g0 ==> #[trigger] i1.gens()[t] == i0.gens()[t]
    &&& forall|t: int| 0 <= t < ninv ==> #[trigger] inv_gen_at(i1, g0, o0, t, xs)
    &&& i1.defs().dom() == i0.defs().dom() + slots.to_set()
    &&& forall|k: VarV| i0.defs().contains_key(k) && !slots.contains(k) ==> #[trigger] i1.defs()[k] == i0.defs()[k]
    &&& forall|k: int, env: Env| 0 <= k < slots.len() ==> #[trigger] eval(i1.gens()[g0 + ninv + k], env) as int
        == (eval(i1.defs()[slots[k]], env) - env(slots[k])) % (modulus() as int)
    &&& forall|k: int, env: Env| 0 <= k < slots.len() && sat(i1, g0, ninv, env) ==> #[trigger] eval(i1.defs()[slots[k]], env) as int
        == sym_sum(pevals(ys, env), pevals(xs, env), k, xs.len()) % (modulus() as int)
    &&& b1.ns.wf()
    &&& b1.ns.count("interp_inv"@) == b0.ns.count("interp_inv"@) + ninv
    &&& forall|key: Seq<char>| key != "interp_inv"@ ==> #[trigger] b1.ns.count(key) == b0.ns.count(key)
    &&& b1.ns.next_sentinel() + ninv == b0.ns.next_sentinel()
}

proof fn lemma_acc_term(s: int, y: int, c: int, ip: int, lagv: int, denv: int, prodv: int, termv: int, outv0: int, outv: int, m: int)
    requires
        m > 0,
        lagv == c % m,
        denv == ip % m,
        prodv == (lagv * denv) % m,
        termv == (y * prodv) % m,
        outv0 == s % m,
        outv == (outv0 + termv) % m,
    ensures
        outv == (s + y * (c * ip)) % m,
{
    vstd::arithmetic::div_mod::lemma_mul_mod_noop(c, ip, m);
    vstd::arithmetic::div_mod::lemma_mul_mod_noop_right(y, c * ip, m);
    vstd::arithmetic::div_mod::lemma_add_mod_noop(s, y * (c * ip), m);
    vstd::arithmetic::div_mod::lemma_mod_twice(y * (c * ip), m);
}

/// Interpolation through points some of which are symbolic: slot `k` of
/// `var` is bound to `sum_i y_i * c_i[k] * prod_{j != i} w_ij`, where `w_ij`
/// is the inverse of a constant difference `x_i - x_j` or a fresh variable
/// constrained by `w_ij * (x_i - x_j) - 1`.
fn interpolate_symbolic(builder: &mut IdealBuilder, ideal: &mut Ideal, var: &Var, xs: &Vec<Polynomial>, ys: &Vec<Polynomial>, table: &Vec<Vec<Option<Fe>>>)
    requires
        old(builder).ns.wf(),
        old(ideal).wf(),
        xs@.len() == ys@.len(),
        xs@.len() < usize::MAX,
        table@.len() == xs@.len(),
        forall|i: int| 0 <= i < table@.len() ==> #[trigger] table@[i]@.len() == xs@.len(),
        forall|i: int, j: int| #![trigger table@[i]@[j]] 0 <= i < table@.len() && 0 <= j < xs@.len() && table@[i]@[j] is Some
            ==> i != j && inverts(pviews(xs@), i, j, table@[i]@[j]->0.val()),
        xs@.len() * xs@.len() < old(builder).ns.next_sentinel(),
        old(builder).ns.count("interp_inv"@) + xs@.len() * xs@.len() < usize::MAX,
        slots_ok(var.typ@),
        xs@.len() <= slot_list(var@).len(),
    ensures
        sym_interp_done(*old(builder), *final(builder), *old(ideal), *final(ideal), var@, pviews(xs@), pviews(ys@)),
{
    let ghost xv = pviews(xs@);
    let ghost yv = pviews(ys@);
    let ghost m = modulus() as int;
    let ghost g0 = ideal.gens().len();
    let ghost o0 = ideal.var_order@.len();
    let n = xs.len();
    let dmat = inverse_sentinels(builder, ideal, xs, table);
    let ghost mid = *ideal;
    let ghost ninv = (ideal.var_order@.len() - o0) as nat;
    let pr_slots = var.slots();
    let nslots = pr_slots.len();
    let mut out: Vec<Polynomial> = Vec::new();
    let mut k: usize = 0;
    while k < nslots
        invariant
            k <= nslots,
            out@.len() == k,
            forall|q: int| 0 <= q < k ==> #[trigger] out@[q]@ == crate::polyv::lit(0),
        decreases nslots - k,
    {
        out.push(Polynomial::zero());
        k = k + 1;
    }
    proof {
        assert forall|q: int, env: Env| 0 <= q < nslots && sat(mid, g0, ninv, env) implies #[trigger] eval(out@[q]@, env)
            == sym_sum(pevals(yv, env), pevals(xv, env), q, 0) % m by {
            vstd::arithmetic::div_mod::lemma_small_mod(0, modulus());
        }
    }
    let mut i: usize = 0;
    while i < n
        invariant
            i <= n,
            n == xs@.len(),
            n == ys@.len(),
            n < usize::MAX,
            xv == pviews(xs@),
            yv == pviews(ys@),
            m == modulus() as int,
            n <= nslots,
            out@.len() == nslots,
            *ideal == mid,
            table@.len() == n,
            forall|a: int| 0 <= a < n ==> #[trigger] table@[a]@.len() == n,
            forall|a: int, b: int| #![trigger table@[a]@[b]] 0 <= a < n && 0 <= b < n && table@[a]@[b] is Some
                ==> a != b && inverts(xv, a, b, table@[a]@[b]->0.val()),
            dmat@.len() == n,
            forall|a: int| 0 <= a < n ==> #[trigger] dmat@[a]@.len() == n,
            forall|a: int, b: int| #![trigger dmat@[a]@[b]] 0 <= a < n && 0 <= b < n && a != b && table@[a]@[b] is None ==> dmat@[a]@[b] is Some,
            forall|a: int, b: int, env: Env| #![trigger dmat@[a]@[b], sat(mid, g0, ninv, env)]
                0 <= a < n && 0 <= b < n && dmat@[a]@[b] is Some && sat(mid, g0, ninv, env)
                    ==> a != b && inverts_at(xv, a, b, env(dmat@[a]@[b]->0@) % modulus(), env),
            forall|q: int, env: Env| 0 <= q < nslots && sat(mid, g0, ninv, env) ==> #[trigger] eval(out@[q]@, env)
                == sym_sum(pevals(yv, env), pevals(xv, env), q, i as nat) % m,
        decreases n - i,
    {
        let mut lag: Vec<Polynomial> = Vec::new();
        lag.push(Polynomial::lit(&Fe::one()));
        proof {
            assert forall|env: Env| #[trigger] reduces_v(pevals(pviews(lag@), env), lin_coeffs(skip(pevals(xv, env), i as int, 0))) by {
                assert(skip(pevals(xv, env), i as int, 0) =~= Seq::<int>::empty());
                vstd::arithmetic::div_mod::lemma_small_mod(1, modulus());
                assert(pviews(lag@)[0] == lag@[0]@);
            }
        }
        let mut j: usize = 0;
        while j < n
            invariant
                j <= n,
                i < n,
                n == xs@.len(),
                n < usize::MAX,
                xv == pviews(xs@),
                m == modulus() as int,
                lag@.len() == (if j <= i { j as int } else { j - 1 }) + 1,
                forall|env: Env| #[trigger] reduces_v(pevals(pviews(lag@), env), lin_coeffs(skip(pevals(xv, env), i as int, j as int))),
            decreases n - j,
        {
            if j != i {
                let next = mul_linear_poly(&lag, &xs[j]);
                proof {
                    assert forall|env: Env| #[trigger] reduces_v(pevals(pviews(next@), env), lin_coeffs(skip(pevals(xv, env), i as int, j as int + 1))) by {
                        let ev = pevals(xv, env);
                        lemma_skip_step(ev, i as int, j as int);
                        let a = skip(ev, i as int, j as int);
                        lemma_lin_push(a, ev[j as int], 0);
                        assert(xv[j as int] == xs@[j as int]@);
                        lemma_mul_lin_cong_v(pevals(pviews(lag@), env), lin_coeffs(a), eval(xs@[j as int]@, env) as int, ev[j as int], pevals(pviews(next@), env));
                    }
                    assert(reduces_v(pevals(pviews(next@), zero_env()), lin_coeffs(skip(pevals(xv, zero_env()), i as int, j as int + 1))));
                    assert(reduces_v(pevals(pviews(lag@), zero_env()), lin_coeffs(skip(pevals(xv, zero_env()), i as int, j as int))));
                    lemma_skip_step(pevals(xv, zero_env()), i as int, j as int);
                    lemma_lin_coeffs_len(skip(pevals(xv, zero_env()), i as int, j as int));
                    lemma_lin_coeffs_len(skip(pevals(xv, zero_env()), i as int, j as int + 1));
                }
                lag = next;
            } else {
                proof {
                    assert forall|env: Env| #[trigger] reduces_v(pevals(pviews(lag@), env), lin_coeffs(skip(pevals(xv, env), i as int, j as int + 1))) by {
                        lemma_skip_step(pevals(xv, env), i as int, j as int);
                    }
                }
            }
            j = j + 1;
        }
        let mut den = Polynomial::lit(&Fe::one());
        proof {
            assert forall|env: Env| sat(mid, g0, ninv, env) implies #[trigger] eval(den@, env) == inv_prod(pevals(xv, env), i as int, 0) % m by {
                vstd::arithmetic::div_mod::lemma_small_mod(1, modulus());
            }
        }
        let mut j: usize = 0;
        while j < n
            invariant
                j <= n,
                i < n,
                n == xs@.len(),
                xv == pviews(xs@),
                m == modulus() as int,
                table@.len() == n,
                forall|a: int| 0 <= a < n ==> #[trigger] table@[a]@.len() == n,
                forall|a: int, b: int| #![trigger table@[a]@[b]] 0 <= a < n && 0 <= b < n && table@[a]@[b] is Some
                    ==> a != b && inverts(xv, a, b, table@[a]@[b]->0.val()),
                dmat@.len() == n,
                forall|a: int| 0 <= a < n ==> #[trigger] dmat@[a]@.len() == n,
                forall|a: int, b: int| #![trigger dmat@[a]@[b]] 0 <= a < n && 0 <= b < n && a != b && table@[a]@[b] is None ==> dmat@[a]@[b] is Some,
                forall|a: int, b: int, env: Env| #![trigger dmat@[a]@[b], sat(mid, g0, ninv, env)]
                    0 <= a < n && 0 <= b < n && dmat@[a]@[b] is Some && sat(mid, g0, ninv, env)
                        ==> a != b && inverts_at(xv, a, b, env(dmat@[a]@[b]->0@) % modulus(), env),
                forall|env: Env| sat(mid, g0, ninv, env) ==> #[trigger] eval(den@, env) == inv_prod(pevals(xv, env), i as int, j as int) % m,
            decreases n - j,
        {
            if j != i {
                let ghost tij = table@[i as int]@[j as int];
                let ghost dij = dmat@[i as int]@[j as int];
                let factor = match &table[i][j] {
                    Some(u) => Polynomial::lit(u),
                    None => match &dmat[i][j] {
                        Some(d) => Polynomial::var(d),
                        None => Polynomial::zero(),
                    },
                };
                let next = den.mul(&factor);
                proof {
                    assert forall|env: Env| sat(mid, g0, ninv, env) implies #[trigger] eval(next@, env) == inv_prod(pevals(xv, env), i as int, j as int + 1) % m by {
                        let ev = pevals(xv, env);
                        let dd = ev[i as int] - ev[j as int];
                        let w = inv(dd);
                        assert(eval(factor@, env) == w) by {
                            if tij is Some {
                                let u = tij->0;
                                assert(inverts(xv, i as int, j as int, u.val()));
                                assert(inverts_at(xv, i as int, j as int, u.val(), env));
                                lemma_inv_unique(dd, u.val());
                                vstd::arithmetic::div_mod::lemma_small_mod(u.val(), modulus());
                            } else {
                                assert(dij is Some);
                                let d = dij->0;
                                assert(inverts_at(xv, i as int, j as int, env(d@) % modulus(), env));
                                lemma_inv_unique(dd, env(d@) % modulus());
                            }
                        }
                        let ip = inv_prod(ev, i as int, j as int);
                        assert(inv_prod(ev, i as int, j as int + 1) == ip * w);
                        vstd::arithmetic::div_mod::lemma_mul_mod_noop_left(ip, w as int, m);
                        vstd::arithmetic::div_mod::lemma_small_mod(w, modulus());
                    }
                }
                den = next;
            }
            j = j + 1;
        }
        proof {
            assert(reduces_v(pevals(pviews(lag@), zero_env()), lin_coeffs(skip(pevals(xv, zero_env()), i as int, n as int))));
            lemma_others_len(pevals(xv, zero_env()), i as int);
        }
        let ghost out0 = out@;
        let mut k: usize = 0;
        while k < lag.len()
            invariant
                k <= lag@.len(),
                lag@.len() == n,
                n <= nslots,
                i < n,
                n == xs@.len(),
                n == ys@.len(),
                xv == pviews(xs@),
                yv == pviews(ys@),
                m == modulus() as int,
                out@.len() == nslots,
                out0.len() == nslots,
                forall|env: Env| #[trigger] reduces_v(pevals(pviews(lag@), env), lin_coeffs(skip(pevals(xv, env), i as int, n as int))),
                forall|env: Env| sat(mid, g0, ninv, env) ==> #[trigger] eval(den@, env) == inv_prod(pevals(xv, env), i as int, n as int) % m,
                forall|q: int, env: Env| 0 <= q < nslots && sat(mid, g0, ninv, env) ==> #[trigger] eval(out0[q]@, env)
                    == sym_sum(pevals(yv, env), pevals(xv, env), q, i as nat) % m,
                forall|q: int| k <= q < nslots ==> #[trigger] out@[q] == out0[q],
                forall|q: int, env: Env| 0 <= q < k && sat(mid, g0, ninv, env) ==> #[trigger] eval(out@[q]@, env)
                    == sym_sum(pevals(yv, env), pevals(xv, env), q, (i + 1) as nat) % m,
            decreases lag@.len() - k,
        {
            let scaled = lag[k].mul(&den);
            let term = ys[i].mul(&scaled);
            let next = out[k].add(&term);
            proof {
                assert forall|env: Env| sat(mid, g0, ninv, env) implies #[trigger] eval(next@, env)
                    == sym_sum(pevals(yv, env), pevals(xv, env), k as int, (i + 1) as nat) % m by {
                    let ev = pevals(xv, env);
                    let yvv = pevals(yv, env);
                    lemma_others_len(ev, i as int);
                    assert(ev.len() == n);
                    assert(skip(ev, i as int, n as int) == others(ev, i as int));
                    let c = cz(lin_coeffs(others(ev, i as int)), k as int);
                    let ip = inv_prod(ev, i as int, n as int);
                    let s0 = sym_sum(yvv, ev, k as int, i as nat);
                    assert(reduces_v(pevals(pviews(lag@), env), lin_coeffs(skip(ev, i as int, n as int))));
                    assert(pevals(pviews(lag@), env)[k as int] == eval(lag@[k as int]@, env) as int);
                    assert(yvv[i as int] == eval(ys@[i as int]@, env) as int);
                    assert(out@[k as int] == out0[k as int]);
                    lemma_acc_term(s0, yvv[i as int], c, ip, eval(lag@[k as int]@, env) as int, eval(den@, env) as int,
                        eval(scaled@, env) as int, eval(term@, env) as int, eval(out@[k as int]@, env) as int, eval(next@, env) as int, m);
                }
            }
            out.set(k, next);
            k = k + 1;
        }
        proof {
            assert forall|q: int, env: Env| 0 <= q < nslots && sat(mid, g0, ninv, env) implies #[trigger] eval(out@[q]@, env)
                == sym_sum(pevals(yv, env), pevals(xv, env), q, (i + 1) as nat) % m by {
                let ev = pevals(xv, env);
                let yvv = pevals(yv, env);
                if q >= n {
                    lemma_others_len(ev, i as int);
                    assert(cz(lin_coeffs(others(ev, i as int)), q) == 0);
                    assert(out@[q] == out0[q]);
                    assert(sym_sum(yvv, ev, q, (i + 1) as nat) == sym_sum(yvv, ev, q, i as nat)
                        + yvv[i as int] * (cz(lin_coeffs(others(ev, i as int)), q) * inv_prod(ev, i as int, ev.len() as int)));
                    assert(yvv[i as int] * (0 * inv_prod(ev, i as int, ev.len() as int)) == 0) by (nonlinear_arith);
                } else {
                    assert(q < k);
                }
            }
        }
        i = i + 1;
    }
    let ghost vals = poly_vals(pviews(out@));
    link_to_polys(ideal, var, out);
    proof {
        let fin = *ideal;
        let slots = slot_list(var@);
        assert forall|t: int| 0 <= t < ninv implies #[trigger] inv_gen_at(fin, g0, o0, t, xv) by {
            assert(inv_gen_at(mid, g0, o0, t, xv));
            assert(fin.gens()[g0 + t] == mid.gens()[g0 + t]);
            let (a, b) = choose|a: int, b: int|
                0 <= a < xv.len() && 0 <= b < xv.len() && a != b
                    && #[trigger] inv_gen(mid.gens()[g0 + t], mid.var_order@[o0 + t]@, xv, a, b);
            assert(inv_gen(fin.gens()[g0 + t], fin.var_order@[o0 + t]@, xv, a, b));
        }
        assert forall|env: Env| #[trigger] sat(fin, g0, ninv, env) implies sat(mid, g0, ninv, env) by {
            assert forall|t: int| 0 <= t < ninv implies #[trigger] eval(mid.gens()[g0 + t], env) == 0 by {
                assert(fin.gens()[g0 + t] == mid.gens()[g0 + t]);
            }
        }
        assert forall|q: int, env: Env| 0 <= q < slots.len() implies #[trigger] eval(fin.gens()[g0 + ninv + q], env) as int
            == (eval(fin.defs()[slots[q]], env) - env(slots[q])) % m by {
            let v = vals[q](env);
            assert(eval(fin.defs()[slots[q]], env) == v % m);
            vstd::arithmetic::div_mod::lemma_sub_mod_noop(v, env(slots[q]) as int, m);
            vstd::arithmetic::div_mod::lemma_sub_mod_noop(v % m, env(slots[q]) as int, m);
            vstd::arithmetic::div_mod::lemma_mod_twice(v, m);
        }
        assert forall|q: int, env: Env| 0 <= q < slots.len() && sat(fin, g0, ninv, env) implies #[trigger] eval(fin.defs()[slots[q]], env) as int
            == sym_sum(pevals(yv, env), pevals(xv, env), q, n as nat) % m by {
            assert(sat(mid, g0, ninv, env));
            assert(vals[q](env) == eval(out@[q]@, env) as int);
            vstd::arithmetic::div_mod::lemma_mod_twice(sym_sum(pevals(yv, env), pevals(xv, env), q, n as nat), m);
        }
    }
}

/// The polynomials standing for the points, read from a literal or from the
/// definitions of the points node's slots.
fn read_points(ideal: &Ideal, points: &Operand) -> (r: Vec<Polynomial>)
    requires
        ideal.wf(),
        points_ok(*ideal, *points),
    ensures
        pviews(r@) == point_polys(*ideal, *points),
{
    match points {
        Operand::Value(v, _) => PolySource::to_poly_value(v),
        Operand::Ref(r, _) => {
            let points_var = ideal.find_ref(*r);
            let slots = points_var.slots();
            let ghost sl = slot_list(ideal.names()[*r]);
            let mut out: Vec<Polynomial> = Vec::new();
            let mut j: usize = 0;
            while j < slots.len()
                invariant
                    j <= slots@.len(),
                    ideal.wf(),
                    points_ok(*ideal, *points),
                    *points == Operand::Ref(*r, points->Ref_1),
                    sl == slot_list(ideal.names()[*r]),
                    views(slots@) == sl,
                    out@.len() == j,
                    forall|q: int| 0 <= q < j ==> #[trigger] out@[q]@ == ideal.defs()[sl[q]],
                decreases slots@.len() - j,
            {
                assert(slots@[j as int]@ == sl[j as int]);
                assert(ideal.defs().contains_key(sl[j as int]));
                let p = ideal.pl_get(&slots[j]).unwrap();
                out.push(p);
                j = j + 1;
            }
            assert(pviews(out@) =~= point_polys(*ideal, *points));
            out
        },
    }
}

/// Whether every point is variable-free.
fn all_constant(xs: &Vec<Polynomial>) -> (r: bool)
    ensures
        r == all_const(pviews(xs@)),
{
    let mut i: usize = 0;
    while i < xs.len()
        invariant
            i <= xs@.len(),
            forall|q: int| 0 <= q < i ==> #[trigger] poly_vars(pviews(xs@)[q]) == Set::<VarV>::empty(),
        decreases xs@.len() - i,
    {
        assert(pviews(xs@)[i as int] == xs@[i as int]@);
        if xs[i].constant_value().is_none() {
            return false;
        }
        i = i + 1;
    }
    true
}

/// What interpolating through `points` with the values `evals` into `var`
/// needs: readable operands with one value per point, and, for symbolic
/// points, slots for every coefficient and room for a fresh inverse
/// variable per ordered pair of points.
pub open spec fn interpolate_ok(b: IdealBuilder, ideal: Ideal, var: VarV, points: Operand, evals: Operand) -> bool {
    let xs = point_polys(ideal, points);
    let n = xs.len();
    &&& b.ns.wf()
    &&& operand_ok(evals, ideal)
    &&& points_ok(ideal, points)
    &&& n == operand_polys(evals, ideal).len()
    &&& n < usize::MAX
    &&& slots_ok(var.typ)
    &&& !all_const(xs) ==> {
        &&& n <= slot_list(var).len()
        &&& n * n < b.ns.next_sentinel()
        &&& b.ns.count("interp_inv"@) + n * n < usize::MAX
    }
}

/// Interpolation: bind `var` to the coefficients, constant term first, of
/// the polynomial through the points of `points` taking the values of
/// `evals`. With constant points the Lagrange basis is computed outright;
/// with symbolic points each non-constant difference `x_i - x_j` gets a
/// fresh inverse variable `d` and the generator `d * (x_i - x_j) - 1`.
/// Points that coincide are refused: constant points that are equal, and
/// symbolic points whose difference is, in canonical form, zero.
pub fn interpolate_op(builder: &mut IdealBuilder, ideal: &mut Ideal, var: &Var, points: &Operand, evals: &Operand) -> (r: Result<(), String>)
    requires
        old(ideal).wf(),
        interpolate_ok(*old(builder), *old(ideal), var@, *points, *evals),
    ensures
        ({
            let xs = point_polys(*old(ideal), *points);
            let ys = operand_polys(*evals, *old(ideal));
            let cv = xs.map_values(|p: PolyV| cval(p));
            &&& r matches Err(e) ==> e@ == duplicate_points_msg() && *final(ideal) == *old(ideal) && *final(builder) == *old(builder)
            &&& all_const(xs) ==> {
                &&& r is Ok <==> !has_duplicate(cv) && !singular(cv)
                &&& r is Ok ==> encodes(*old(ideal), *final(ideal), slot_list(var@), interp_vals(ys, cv, slot_list(var@).len()))
                &&& *final(builder) == *old(builder)
            }
            &&& !all_const(xs) ==> {
                &&& r is Err <==> formally_coincide(xs)
                &&& r is Err ==> some_coincide(xs)
                &&& r is Ok ==> sym_interp_done(*old(builder), *final(builder), *old(ideal), *final(ideal), var@, xs, ys)
            }
        }),
{
    let ys = PolySource::ref_vars(evals, ideal);
    let xs = read_points(ideal, points);
    if all_constant(&xs) {
        interpolate_constant(ideal, var, &xs, &ys)
    } else {
        let table = match constant_inverses(&xs) {
            Ok(t) => t,
            Err(_) => {
                return Err("ideal: operation has no polynomial-ideal treatment at duplicate-interpolate-points".to_owned());
            },
        };
        interpolate_symbolic(builder, ideal, var, &xs, &ys, &table);
        Ok(())
    }
}
} // verus!

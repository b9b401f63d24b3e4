//! Evaluation of polynomial values at points: batched univariate
//! evaluation, full and partial evaluation of multivariate coefficient
//! forms and of multilinear extensions, and evaluation keeping one variable
//! free.
use vstd::prelude::*;
use vstd::arithmetic::power::pow;
use vstd::arithmetic::power2::pow2;

use crate::combinatorics::{binom, cube_point, hypercube, mi_seq, mi_views, multi_indices};
use crate::dot::denotes;
use crate::field::{modulus, Fe};
use crate::interp::pevals;
use crate::poly::Polynomial;
use crate::encode::{encodes, link_to_polys, poly_vals};
use crate::ideal::Ideal;
use crate::var::{slot_list, slots_ok, Var, VarV};
use crate::poly_source::{lifted, liftable, op_typ, operand_ok, operand_polys, pviews, Operand, PolySource};
use crate::polyv::{eval, Env, PolyV};
use crate::typ::{plen, ATyp, TypV};

verus! {

broadcast use {crate::field::lemma_val_lt, crate::polyv::lemma_eval_lt};

/// `sum_{j < cnt} a_j * x^j`, unreduced.
pub open spec fn horner_sum(a: Seq<PolyV>, x: int, env: Env, cnt: nat) -> int
    decreases cnt,
{
    if cnt == 0 {
        0
    } else {
        horner_sum(a, x, env, (cnt - 1) as nat) + eval(a[cnt - 1], env) * pow(x, (cnt - 1) as nat)
    }
}

/// The univariate polynomial with coefficients `coeffs` at the point `x`.
pub fn horner(coeffs: &[Polynomial], x: &Polynomial) -> (r: Polynomial)
    ensures
        forall|env: Env| #[trigger] eval(r@, env) as int
            == horner_sum(pviews(coeffs@), eval(x@, env) as int, env, coeffs@.len()) % (modulus() as int),
{
    let ghost m = modulus() as int;
    let ghost cs = pviews(coeffs@);
    let one = Polynomial::lit(&Fe::one());
    let mut acc = Polynomial::zero();
    let mut xp = one;
    proof {
        assert forall|env: Env| #[trigger] eval(xp@, env) as int == pow(eval(x@, env) as int, 0) % m by {
            vstd::arithmetic::power::lemma_pow0(eval(x@, env) as int);
            vstd::arithmetic::div_mod::lemma_small_mod(1, modulus());
        }
        assert forall|env: Env| #[trigger] eval(acc@, env) as int == horner_sum(cs, eval(x@, env) as int, env, 0) % m by {
            vstd::arithmetic::div_mod::lemma_small_mod(0, modulus());
        }
    }
    let mut j: usize = 0;
    while j < coeffs.len()
        invariant
            j <= coeffs@.len(),
            cs == pviews(coeffs@),
            m == modulus() as int,
            forall|env: Env| #[trigger] eval(xp@, env) as int == pow(eval(x@, env) as int, j as nat) % m,
            forall|env: Env| #[trigger] eval(acc@, env) as int == horner_sum(cs, eval(x@, env) as int, env, j as nat) % m,
        decreases coeffs@.len() - j,
    {
        let term = coeffs[j].mul(&xp);
        let next = acc.add(&term);
        let xn = xp.mul(x);
        proof {
            assert forall|env: Env| #[trigger] eval(next@, env) as int == horner_sum(cs, eval(x@, env) as int, env, (j + 1) as nat) % m by {
                let xv = eval(x@, env) as int;
                let a = eval(cs[j as int], env) as int;
                let p = pow(xv, j as nat);
                let s = horner_sum(cs, xv, env, j as nat);
                assert(cs[j as int] == coeffs@[j as int]@);
                vstd::arithmetic::div_mod::lemma_mul_mod_noop_right(a, p, m);
                vstd::arithmetic::div_mod::lemma_add_mod_noop(s, a * p, m);
                vstd::arithmetic::div_mod::lemma_mod_twice(s, m);
                vstd::arithmetic::div_mod::lemma_mod_twice(a * p, m);
            }
            assert forall|env: Env| #[trigger] eval(xn@, env) as int == pow(eval(x@, env) as int, (j + 1) as nat) % m by {
                let xv = eval(x@, env) as int;
                vstd::arithmetic::power::lemma_pow_adds(xv, j as nat, 1);
                vstd::arithmetic::power::lemma_pow1(xv);
                vstd::arithmetic::div_mod::lemma_mul_mod_noop_left(pow(xv, j as nat), xv, m);
                vstd::arithmetic::div_mod::lemma_small_mod(xv as nat, modulus());
            }
        }
        acc = next;
        xp = xn;
        j = j + 1;
    }
    acc
}

/// `prod_{j < cnt} x_j^(k_j)`.
pub open spec fn mono_val(k: Seq<usize>, xv: Seq<int>, cnt: nat) -> int
    decreases cnt,
{
    if cnt == 0 {
        1
    } else {
        mono_val(k, xv, (cnt - 1) as nat) * pow(xv[cnt - 1], k[cnt - 1] as nat)
    }
}

/// `x_j` when `b_j` is one, `1 - x_j` otherwise.
pub open spec fn eq_val(b: usize, x: int) -> int {
    if b == 1 {
        x
    } else {
        1 - x
    }
}

/// `prod_{j < cnt} eq(b_j, x_j)`: the multilinear Lagrange weight of the
/// boolean point `b` at `x`, over the first `cnt` coordinates.
pub open spec fn eq_prod(b: Seq<usize>, xv: Seq<int>, cnt: nat) -> int
    decreases cnt,
{
    if cnt == 0 {
        1
    } else {
        eq_prod(b, xv, (cnt - 1) as nat) * eq_val(b[cnt - 1], xv[cnt - 1])
    }
}

/// The boolean points whose first `cnt` coordinates agree with `b`.
pub open spec fn agree(b: Seq<usize>, c: Seq<usize>, cnt: nat) -> bool {
    forall|i: int| 0 <= i < cnt ==> #[trigger] b[i] == c[i]
}

/// The Lagrange weight of a boolean point `b` at a boolean point `c` is one
/// where they agree on the first `cnt` coordinates, zero elsewhere.
pub proof fn lemma_eq_prod_boolean(b: Seq<usize>, c: Seq<usize>, cnt: nat)
    requires
        cnt <= b.len(),
        cnt <= c.len(),
        forall|i: int| 0 <= i < cnt ==> #[trigger] b[i] <= 1,
        forall|i: int| 0 <= i < cnt ==> #[trigger] c[i] <= 1,
    ensures
        eq_prod(b, c.map_values(|x: usize| x as int), cnt) == if agree(b, c, cnt) { 1int } else { 0int },
    decreases cnt,
{
    let cv = c.map_values(|x: usize| x as int);
    if cnt > 0 {
        let t = (cnt - 1) as nat;
        lemma_eq_prod_boolean(b, c, t);
        assert(cv[t as int] == c[t as int] as int);
        assert(b[t as int] <= 1 && c[t as int] <= 1);
        if agree(b, c, t) {
            if b[t as int] == c[t as int] {
                assert(agree(b, c, cnt));
            } else {
                assert(!agree(b, c, cnt));
            }
        } else {
            let i = choose|i: int| 0 <= i < t && b[i] != c[i];
            assert(!agree(b, c, cnt));
        }
    } else {
        assert(agree(b, c, 0));
    }
}

/// Law: a multilinear extension of `n` variables, evaluated at the
/// hypercube point at position `i`, weighs table entry `j` by one when
/// `j == i` and by zero otherwise, so it gives back entry `i`.
pub proof fn lemma_mle_at_cube_point(i: nat, j: nat, n: nat)
    requires
        i < pow2(n),
        j < pow2(n),
    ensures
        eq_prod(cube_point(j, n), cube_point(i, n).map_values(|x: usize| x as int), n) == if i == j { 1int } else { 0int },
{
    let b = cube_point(j, n);
    let c = cube_point(i, n);
    assert forall|k: int| 0 <= k < n implies #[trigger] b[k] <= 1 by {
        assert(b[k] == crate::combinatorics::bit(j, k as nat));
    }
    assert forall|k: int| 0 <= k < n implies #[trigger] c[k] <= 1 by {
        assert(c[k] == crate::combinatorics::bit(i, k as nat));
    }
    lemma_eq_prod_boolean(b, c, n);
    crate::combinatorics::lemma_hypercube_roundtrip(i, n);
    crate::combinatorics::lemma_hypercube_roundtrip(j, n);
    if agree(b, c, n) {
        assert(b =~= c);
    } else if i == j {
        assert(agree(b, c, n));
    }
}

proof fn lemma_mul_step(a: int, b: int, c: int, av: int, bv: int, r: int, m: int)
    requires
        m > 0,
        av == a % m,
        bv == b % m,
        r == (av * bv) % m,
        c == a * b,
    ensures
        r == c % m,
{
    vstd::arithmetic::div_mod::lemma_mul_mod_noop(a, b, m);
}

/// `prod_{j < k} xs_j^(ki_j)`.
fn mono_poly(ki: &Vec<usize>, k: usize, xs: &Vec<Polynomial>) -> (r: Polynomial)
    requires
        k <= ki@.len(),
        k <= xs@.len(),
    ensures
        forall|env: Env| #[trigger] eval(r@, env) as int == mono_val(ki@, pevals(pviews(xs@), env), k as nat) % (modulus() as int),
{
    let ghost m = modulus() as int;
    let mut acc = Polynomial::lit(&Fe::one());
    proof {
        assert forall|env: Env| #[trigger] eval(acc@, env) as int == mono_val(ki@, pevals(pviews(xs@), env), 0) % m by {
            vstd::arithmetic::div_mod::lemma_small_mod(1, modulus());
        }
    }
    let mut j: usize = 0;
    while j < k
        invariant
            j <= k,
            k <= ki@.len(),
            k <= xs@.len(),
            m == modulus() as int,
            forall|env: Env| #[trigger] eval(acc@, env) as int == mono_val(ki@, pevals(pviews(xs@), env), j as nat) % m,
        decreases k - j,
    {
        if ki[j] != 0 {
            let xp = xs[j].pow(ki[j]);
            let next = acc.mul(&xp);
            proof {
                assert forall|env: Env| #[trigger] eval(next@, env) as int == mono_val(ki@, pevals(pviews(xs@), env), (j + 1) as nat) % m by {
                    let xv = pevals(pviews(xs@), env);
                    assert(pviews(xs@)[j as int] == xs@[j as int]@);
                    let x = xv[j as int];
                    let mv = mono_val(ki@, xv, j as nat);
                    let p = pow(x, ki@[j as int] as nat);
                    crate::poly::lemma_pow_nonneg(x, ki@[j as int] as nat);
                    lemma_mul_step(mv, p, mv * p, eval(acc@, env) as int, eval(xp@, env) as int, eval(next@, env) as int, m);
                }
            }
            acc = next;
        } else {
            proof {
                assert forall|env: Env| #[trigger] eval(acc@, env) as int == mono_val(ki@, pevals(pviews(xs@), env), (j + 1) as nat) % m by {
                    let xv = pevals(pviews(xs@), env);
                    vstd::arithmetic::power::lemma_pow0(xv[j as int]);
                }
            }
        }
        j = j + 1;
    }
    acc
}

/// `prod_{j < k} eq(b_j, xs_j)`, `eq(1, x) = x` and `eq(0, x) = 1 - x`.
fn eq_poly(b: &Vec<usize>, k: usize, xs: &Vec<Polynomial>) -> (r: Polynomial)
    requires
        k <= b@.len(),
        k <= xs@.len(),
    ensures
        forall|env: Env| #[trigger] eval(r@, env) as int == eq_prod(b@, pevals(pviews(xs@), env), k as nat) % (modulus() as int),
{
    let ghost m = modulus() as int;
    let one = Polynomial::lit(&Fe::one());
    let mut acc = Polynomial::lit(&Fe::one());
    proof {
        assert forall|env: Env| #[trigger] eval(acc@, env) as int == eq_prod(b@, pevals(pviews(xs@), env), 0) % m by {
            vstd::arithmetic::div_mod::lemma_small_mod(1, modulus());
        }
    }
    let mut j: usize = 0;
    while j < k
        invariant
            j <= k,
            k <= b@.len(),
            k <= xs@.len(),
            m == modulus() as int,
            one@ == crate::polyv::lit(1),
            forall|env: Env| #[trigger] eval(acc@, env) as int == eq_prod(b@, pevals(pviews(xs@), env), j as nat) % m,
        decreases k - j,
    {
        let f = if b[j] == 1 {
            xs[j].clone()
        } else {
            one.sub(&xs[j])
        };
        let next = acc.mul(&f);
        proof {
            assert forall|env: Env| #[trigger] eval(next@, env) as int == eq_prod(b@, pevals(pviews(xs@), env), (j + 1) as nat) % m by {
                let xv = pevals(pviews(xs@), env);
                assert(pviews(xs@)[j as int] == xs@[j as int]@);
                let x = xv[j as int];
                let e = eq_val(b@[j as int], x);
                assert(eval(f@, env) as int == e % m) by {
                    vstd::arithmetic::div_mod::lemma_small_mod(x as nat, modulus());
                    if b@[j as int] != 1 {
                        assert(eval(one@, env) == 1) by {
                            vstd::arithmetic::div_mod::lemma_small_mod(1, modulus());
                        }
                        crate::polyv::lemma_mod_diff(1, x, m);
                        vstd::arithmetic::div_mod::lemma_small_mod(1, modulus());
                    }
                }
                let ep = eq_prod(b@, xv, j as nat);
                lemma_mul_step(ep, e, ep * e, eval(acc@, env) as int, eval(f@, env) as int, eval(next@, env) as int, m);
            }
        }
        acc = next;
        j = j + 1;
    }
    acc
}


/// `sum` over the indices `idx < cnt` whose entries from position `k` on
/// equal `key`, of `p[idx] * w(idxs[idx], env)`, unreduced.
pub open spec fn fsum(p: Seq<PolyV>, idxs: Seq<Seq<usize>>, k: nat, key: Seq<usize>, w: spec_fn(Seq<usize>, Env) -> int, env: Env, cnt: nat) -> int
    decreases cnt,
{
    if cnt == 0 {
        0
    } else {
        let i = cnt - 1;
        fsum(p, idxs, k, key, w, env, (cnt - 1) as nat) + if idxs[i].subrange(k as int, idxs[i].len() as int) == key {
            eval(p[i], env) * w(idxs[i], env)
        } else {
            0
        }
    }
}

/// Whether `a[k..]` equals `b`.
fn tail_eq(a: &Vec<usize>, k: usize, b: &Vec<usize>) -> (r: bool)
    requires
        k <= a@.len(),
    ensures
        r == (a@.subrange(k as int, a@.len() as int) == b@),
{
    if a.len() - k != b.len() {
        return false;
    }
    let alen = a.len();
    let mut j: usize = 0;
    while j < b.len()
        invariant
            j <= b@.len(),
            alen == a@.len(),
            k + b@.len() == a@.len(),
            forall|q: int| 0 <= q < j ==> a@[k + q] == b@[q],
        decreases b@.len() - j,
    {
        if a[k + j] != b[j] {
            assert(a@.subrange(k as int, a@.len() as int)[j as int] != b@[j as int]);
            return false;
        }
        j = j + 1;
    }
    assert(a@.subrange(k as int, a@.len() as int) =~= b@);
    true
}

/// `sum_{idx : idxs[idx][k..] == key} p[idx] * wpolys[idx]`.
fn filtered_sum(
    p: &[Polynomial],
    idxs: &Vec<Vec<usize>>,
    k: usize,
    key: &Vec<usize>,
    wpolys: &Vec<Polynomial>,
    Ghost(w): Ghost<spec_fn(Seq<usize>, Env) -> int>,
) -> (r: Polynomial)
    requires
        p@.len() == idxs@.len(),
        wpolys@.len() == idxs@.len(),
        forall|i: int| 0 <= i < idxs@.len() ==> k <= #[trigger] idxs@[i]@.len(),
        forall|i: int, env: Env| 0 <= i < idxs@.len() ==> #[trigger] eval(wpolys@[i]@, env) as int == w(idxs@[i]@, env) % (modulus() as int),
    ensures
        forall|env: Env| #[trigger] eval(r@, env) as int == fsum(pviews(p@), mi_views(idxs@), k as nat, key@, w, env, p@.len()) % (modulus() as int),
{
    let ghost m = modulus() as int;
    let ghost pv = pviews(p@);
    let ghost iv = mi_views(idxs@);
    let mut acc = Polynomial::zero();
    proof {
        assert forall|env: Env| #[trigger] eval(acc@, env) as int == fsum(pv, iv, k as nat, key@, w, env, 0) % m by {
            vstd::arithmetic::div_mod::lemma_small_mod(0, modulus());
        }
    }
    let mut i: usize = 0;
    while i < p.len()
        invariant
            i <= p@.len(),
            p@.len() == idxs@.len(),
            wpolys@.len() == idxs@.len(),
            pv == pviews(p@),
            iv == mi_views(idxs@),
            m == modulus() as int,
            forall|q: int| 0 <= q < idxs@.len() ==> k <= #[trigger] idxs@[q]@.len(),
            forall|q: int, env: Env| 0 <= q < idxs@.len() ==> #[trigger] eval(wpolys@[q]@, env) as int == w(idxs@[q]@, env) % m,
            forall|env: Env| #[trigger] eval(acc@, env) as int == fsum(pv, iv, k as nat, key@, w, env, i as nat) % m,
        decreases p@.len() - i,
    {
        assert(iv[i as int] == idxs@[i as int]@);
        assert(k <= idxs@[i as int]@.len());
        if tail_eq(&idxs[i], k, key) {
            let term = p[i].mul(&wpolys[i]);
            let next = acc.add(&term);
            proof {
                assert forall|env: Env| #[trigger] eval(next@, env) as int == fsum(pv, iv, k as nat, key@, w, env, (i + 1) as nat) % m by {
                    let s = fsum(pv, iv, k as nat, key@, w, env, i as nat);
                    let a = eval(pv[i as int], env) as int;
                    let wv = w(iv[i as int], env);
                    assert(pv[i as int] == p@[i as int]@);
                    assert(eval(wpolys@[i as int]@, env) as int == wv % m);
                    vstd::arithmetic::div_mod::lemma_mul_mod_noop_right(a, wv, m);
                    vstd::arithmetic::div_mod::lemma_add_mod_noop(s, a * wv, m);
                    vstd::arithmetic::div_mod::lemma_mod_twice(s, m);
                    vstd::arithmetic::div_mod::lemma_mod_twice(a * wv, m);
                }
            }
            acc = next;
        }
        i = i + 1;
    }
    acc
}

/// The monomial weight `prod_{j < k} x_j^(ki_j)` at the points `xs`.
pub open spec fn mono_w(xs: Seq<PolyV>, k: nat) -> spec_fn(Seq<usize>, Env) -> int {
    |ki: Seq<usize>, env: Env| mono_val(ki, pevals(xs, env), k)
}

/// The multilinear weight `prod_{j < k} eq(b_j, x_j)` at the points `xs`.
pub open spec fn eq_w(xs: Seq<PolyV>, k: nat) -> spec_fn(Seq<usize>, Env) -> int {
    |b: Seq<usize>, env: Env| eq_prod(b, pevals(xs, env), k)
}

/// The points of `{0,1}^n` in hypercube order.
pub open spec fn cube_seq(n: nat) -> Seq<Seq<usize>> {
    Seq::new(pow2(n), |i: int| cube_point(i as nat, n))
}

/// The shapes evaluation at `k` points handles: a univariate polynomial at
/// one or more points, or a multivariate polynomial or multilinear
/// extension of `n` variables at between one and `n` points.
pub open spec fn eval_shape_ok(tp: TypV, k: nat) -> bool {
    match tp {
        TypV::Uni(_) => k >= 1,
        TypV::VPoly(n, d) => if n == 1 { k >= 1 } else { n >= 2 && 1 <= k <= n && n + d <= usize::MAX },
        TypV::Mle(n) => 1 <= k <= n,
        _ => false,
    }
}

/// The values evaluation produces: for a univariate polynomial, its value
/// at each point; for `n` variables and `k` points, one value per
/// multi-index (or boolean point) of the remaining `n - k` variables, the
/// sum of the terms whose remaining exponents (bits) match it, weighted by
/// the first `k` variables at the points.
pub open spec fn eval_vals(tp: TypV, ps: Seq<PolyV>, xs: Seq<PolyV>) -> Seq<spec_fn(Env) -> int> {
    let k = xs.len();
    match tp {
        TypV::VPoly(n, d) if n >= 2 => Seq::new(
            binom((n - k + d) as nat, (n - k) as nat),
            |q: int| (|env: Env| fsum(ps, mi_seq(n, d), k, mi_seq((n - k) as nat, d)[q], mono_w(xs, k), env, ps.len())),
        ),
        TypV::Mle(n) => Seq::new(
            pow2((n - k) as nat),
            |q: int| (|env: Env| fsum(ps, cube_seq(n), k, cube_point(q as nat, (n - k) as nat), eq_w(xs, k), env, ps.len())),
        ),
        _ => Seq::new(k, |i: int| (|env: Env| horner_sum(ps, eval(xs[i], env) as int, env, ps.len()))),
    }
}

/// Evaluation of the polynomial value of shape `tp` with slots `ps` at the
/// points `xs`; see [`eval_vals`].
pub fn eval_polys(tp: &ATyp, ps: &Vec<Polynomial>, xs: &Vec<Polynomial>) -> (r: Vec<Polynomial>)
    requires
        eval_shape_ok(tp@, xs@.len()),
        ps@.len() == plen(tp@),
    ensures
        denotes(pviews(r@), eval_vals(tp@, pviews(ps@), pviews(xs@))),
{
    let ghost m = modulus() as int;
    let ghost pv = pviews(ps@);
    let ghost xv = pviews(xs@);
    let k = xs.len();
    match tp {
        ATyp::VPoly(n, d) if *n >= 2 => {
            let all_k = multi_indices(*n, *d);
            let ghost w = mono_w(xv, k as nat);
            let mut wpolys: Vec<Polynomial> = Vec::new();
            let mut i: usize = 0;
            while i < all_k.len()
                invariant
                    i <= all_k@.len(),
                    k <= *n,
                    k == xs@.len(),
                    xv == pviews(xs@),
                    w == mono_w(xv, k as nat),
                    m == modulus() as int,
                    forall|q: int| 0 <= q < all_k@.len() ==> crate::combinatorics::is_multi_index(#[trigger] all_k@[q]@, *n as nat, *d as nat),
                    wpolys@.len() == i,
                    forall|q: int, env: Env| 0 <= q < i ==> #[trigger] eval(wpolys@[q]@, env) as int == w(all_k@[q]@, env) % m,
                decreases all_k@.len() - i,
            {
                assert(crate::combinatorics::is_multi_index(all_k@[i as int]@, *n as nat, *d as nat));
                wpolys.push(mono_poly(&all_k[i], k, xs));
                i = i + 1;
            }
            let rem = multi_indices(*n - k, *d);
            let mut out: Vec<Polynomial> = Vec::new();
            let mut q: usize = 0;
            while q < rem.len()
                invariant
                    q <= rem@.len(),
                    k <= *n,
                    tp@ == TypV::VPoly(*n as nat, *d as nat),
                    pv == pviews(ps@),
                    xv == pviews(xs@),
                    w == mono_w(xv, k as nat),
                    m == modulus() as int,
                    ps@.len() == all_k@.len(),
                    wpolys@.len() == all_k@.len(),
                    mi_views(all_k@) == mi_seq(*n as nat, *d as nat),
                    mi_views(rem@) == mi_seq((*n - k) as nat, *d as nat),
                    forall|t: int| 0 <= t < all_k@.len() ==> crate::combinatorics::is_multi_index(#[trigger] all_k@[t]@, *n as nat, *d as nat),
                    forall|t: int, env: Env| 0 <= t < all_k@.len() ==> #[trigger] eval(wpolys@[t]@, env) as int == w(all_k@[t]@, env) % m,
                    out@.len() == q,
                    forall|t: int, env: Env| 0 <= t < q ==> #[trigger] eval(out@[t]@, env) as int
                        == fsum(pv, mi_seq(*n as nat, *d as nat), k as nat, mi_seq((*n - k) as nat, *d as nat)[t], w, env, pv.len()) % m,
                decreases rem@.len() - q,
            {
                assert(mi_views(rem@)[q as int] == rem@[q as int]@);
                let s = filtered_sum(ps.as_slice(), &all_k, k, &rem[q], &wpolys, Ghost(w));
                out.push(s);
                q = q + 1;
            }
            proof {
                let want = eval_vals(tp@, pv, xv);
                assert forall|t: int, env: Env| 0 <= t < pviews(out@).len() implies #[trigger] eval(pviews(out@)[t], env) == want[t](env) % m by {
                    assert(pviews(out@)[t] == out@[t]@);
                }
            }
            out
        },
        ATyp::Mle(n) => {
            let total = ps.len();
            assert(total == pow2(*n as nat));
            proof {
                vstd::arithmetic::power2::lemma_pow2_strictly_increases((*n - k) as nat, *n as nat);
            }
            let all_b = hypercube(*n);
            let ghost w = eq_w(xv, k as nat);
            assert(mi_views(all_b@) =~= cube_seq(*n as nat));
            let mut wpolys: Vec<Polynomial> = Vec::new();
            let mut i: usize = 0;
            while i < all_b.len()
                invariant
                    i <= all_b@.len(),
                    k <= *n,
                    k == xs@.len(),
                    xv == pviews(xs@),
                    w == eq_w(xv, k as nat),
                    m == modulus() as int,
                    forall|q: int| 0 <= q < all_b@.len() ==> #[trigger] all_b@[q]@ == cube_point(q as nat, *n as nat),
                    wpolys@.len() == i,
                    forall|q: int, env: Env| 0 <= q < i ==> #[trigger] eval(wpolys@[q]@, env) as int == w(all_b@[q]@, env) % m,
                decreases all_b@.len() - i,
            {
                assert(all_b@[i as int]@ == cube_point(i as nat, *n as nat));
                wpolys.push(eq_poly(&all_b[i], k, xs));
                i = i + 1;
            }
            let rem = hypercube(*n - k);
            let mut out: Vec<Polynomial> = Vec::new();
            let mut q: usize = 0;
            while q < rem.len()
                invariant
                    q <= rem@.len(),
                    k <= *n,
                    tp@ == TypV::Mle(*n as nat),
                    pv == pviews(ps@),
                    xv == pviews(xs@),
                    w == eq_w(xv, k as nat),
                    m == modulus() as int,
                    ps@.len() == all_b@.len(),
                    wpolys@.len() == all_b@.len(),
                    mi_views(all_b@) == cube_seq(*n as nat),
                    rem@.len() == pow2((*n - k) as nat),
                    forall|t: int| 0 <= t < rem@.len() ==> #[trigger] rem@[t]@ == cube_point(t as nat, (*n - k) as nat),
                    forall|t: int| 0 <= t < all_b@.len() ==> #[trigger] all_b@[t]@ == cube_point(t as nat, *n as nat),
                    forall|t: int, env: Env| 0 <= t < all_b@.len() ==> #[trigger] eval(wpolys@[t]@, env) as int == w(all_b@[t]@, env) % m,
                    out@.len() == q,
                    forall|t: int, env: Env| 0 <= t < q ==> #[trigger] eval(out@[t]@, env) as int
                        == fsum(pv, cube_seq(*n as nat), k as nat, cube_point(t as nat, (*n - k) as nat), w, env, pv.len()) % m,
                decreases rem@.len() - q,
            {
                assert(rem@[q as int]@ == cube_point(q as nat, (*n - k) as nat));
                let s = filtered_sum(ps.as_slice(), &all_b, k, &rem[q], &wpolys, Ghost(w));
                out.push(s);
                q = q + 1;
            }
            proof {
                let want = eval_vals(tp@, pv, xv);
                assert forall|t: int, env: Env| 0 <= t < pviews(out@).len() implies #[trigger] eval(pviews(out@)[t], env) == want[t](env) % m by {
                    assert(pviews(out@)[t] == out@[t]@);
                }
            }
            out
        },
        _ => {
            let mut out: Vec<Polynomial> = Vec::new();
            let mut i: usize = 0;
            while i < k
                invariant
                    i <= k,
                    k == xs@.len(),
                    pv == pviews(ps@),
                    xv == pviews(xs@),
                    m == modulus() as int,
                    out@.len() == i,
                    forall|t: int, env: Env| 0 <= t < i ==> #[trigger] eval(out@[t]@, env) as int
                        == horner_sum(pv, eval(xv[t], env) as int, env, pv.len()) % m,
                decreases k - i,
            {
                let v = horner(ps.as_slice(), &xs[i]);
                proof {
                    assert(xv[i as int] == xs@[i as int]@);
                }
                out.push(v);
                i = i + 1;
            }
            proof {
                let want = eval_vals(tp@, pv, xv);
                assert forall|t: int, env: Env| 0 <= t < pviews(out@).len() implies #[trigger] eval(pviews(out@)[t], env) == want[t](env) % m by {
                    assert(pviews(out@)[t] == out@[t]@);
                }
            }
            out
        },
    }
}

/// What evaluating `p` at the points `xs` needs: readable operands, a
/// supported shape, and one slot per position of `p`'s shape.
pub open spec fn eval_ok(ideal: Ideal, p: Operand, xs: Operand) -> bool {
    &&& operand_ok(p, ideal)
    &&& operand_ok(xs, ideal)
    &&& eval_shape_ok(op_typ(p), operand_polys(xs, ideal).len())
    &&& operand_polys(p, ideal).len() == plen(op_typ(p))
}

/// Evaluate the polynomial operand `p` at the points `xs`; see
/// [`eval_vals`].
pub fn eval_to_poly(ideal: &Ideal, p: &Operand, xs: &Operand) -> (r: Vec<Polynomial>)
    requires
        ideal.wf(),
        eval_ok(*ideal, *p, *xs),
    ensures
        denotes(pviews(r@), eval_vals(op_typ(*p), operand_polys(*p, *ideal), operand_polys(*xs, *ideal))),
{
    let xs_polys = PolySource::ref_vars(xs, ideal);
    let p_polys = PolySource::ref_vars(p, ideal);
    eval_polys(p.typ(), &p_polys, &xs_polys)
}

/// The shape of the values evaluation produces, before they are lifted to
/// the target shape: the multilinear extension or multivariate polynomial
/// of the remaining variables (a scalar when none remain), or for a
/// univariate polynomial the target itself when its slot count matches the
/// number of points, a vector of scalars otherwise.
pub open spec fn raw_eval_typ(tp: TypV, k: nat, target: TypV) -> TypV {
    match tp {
        TypV::Mle(n) => if k < n { TypV::Mle((n - k) as nat) } else { TypV::Base(crate::typ::ABase::Scalar) },
        TypV::VPoly(n, m) if n >= 2 => if k < n { TypV::VPoly((n - k) as nat, m) } else { TypV::Base(crate::typ::ABase::Scalar) },
        _ => if plen(target) == k { target } else { TypV::Vec(Box::new(TypV::Base(crate::typ::ABase::Scalar)), k) },
    }
}

/// The shape of the values evaluation produces; see [`raw_eval_typ`].
fn raw_eval_shape(tp: &ATyp, k: usize, target: &ATyp) -> (r: ATyp)
    requires
        eval_shape_ok(tp@, k as nat),
        plen(target@) <= usize::MAX,
    ensures
        r@ == raw_eval_typ(tp@, k as nat, target@),
{
    match tp {
        ATyp::Mle(n) => {
            if k < *n {
                ATyp::Mle(*n - k)
            } else {
                ATyp::scalar()
            }
        },
        ATyp::VPoly(n, m) if *n >= 2 => {
            if k < *n {
                ATyp::VPoly(*n - k, *m)
            } else {
                ATyp::scalar()
            }
        },
        _ => {
            if target.physical_len() == k {
                target.clone()
            } else {
                ATyp::vec(&ATyp::scalar(), k)
            }
        },
    }
}

/// Evaluate `p` at the points `xs` and lift the values to `target_typ`.
pub fn eval_to_poly_as(ideal: &Ideal, p: &Operand, xs: &Operand, target_typ: &ATyp) -> (r: Vec<Polynomial>)
    requires
        ideal.wf(),
        eval_ok(*ideal, *p, *xs),
        liftable(raw_eval_typ(op_typ(*p), operand_polys(*xs, *ideal).len(), target_typ@), target_typ@),
        plen(target_typ@) <= usize::MAX,
    ensures
        r@.len() == plen(target_typ@),
        exists|vals: Seq<PolyV>| #![trigger lifted(raw_eval_typ(op_typ(*p), operand_polys(*xs, *ideal).len(), target_typ@), target_typ@, vals, pviews(r@))]
            denotes(vals, eval_vals(op_typ(*p), operand_polys(*p, *ideal), operand_polys(*xs, *ideal)))
            && lifted(raw_eval_typ(op_typ(*p), operand_polys(*xs, *ideal).len(), target_typ@), target_typ@, vals, pviews(r@)),
{
    let polys = eval_to_poly(ideal, p, xs);
    let k = PolySource::ref_vars(xs, ideal).len();
    let raw = raw_eval_shape(p.typ(), k, target_typ);
    let ghost vals = pviews(polys@);
    proof {
        let tp = op_typ(*p);
        let kk = k as nat;
        let ev = eval_vals(tp, operand_polys(*p, *ideal), operand_polys(*xs, *ideal));
        assert(vals.len() == ev.len());
        assert(vals.len() == plen(raw@)) by {
            match tp {
                TypV::Mle(n) => {
                    if kk == n {
                        vstd::arithmetic::power2::lemma2_to64();
                    }
                },
                TypV::VPoly(n, d) => {
                    if n >= 2 {
                        if kk == n {
                            assert(binom(d, 0) == 1);
                        }
                    } else {
                        assert(plen(TypV::Base(crate::typ::ABase::Scalar)) == 1);
                        assert(plen(TypV::Vec(Box::new(TypV::Base(crate::typ::ABase::Scalar)), kk)) == kk * 1);
                    }
                },
                _ => {
                    assert(plen(TypV::Base(crate::typ::ABase::Scalar)) == 1);
                        assert(plen(TypV::Vec(Box::new(TypV::Base(crate::typ::ABase::Scalar)), kk)) == kk * 1);
                },
            }
        }
    }
    let src = PolySource { polys, typ: raw };
    let lifted_src = src.lift_to(target_typ);
    lifted_src.polys
}

/// Position among the fixed values of variable `v`, when variable `free`
/// is kept free.
pub open spec fn fixed_pos(v: int, free: int) -> int {
    if v < free {
        v
    } else {
        v - 1
    }
}

/// `prod_{v < cnt, v != free} fx[fixed_pos(v)]^(k_v)`.
pub open spec fn sel_mono(k: Seq<usize>, free: int, fx: Seq<int>, cnt: nat) -> int
    decreases cnt,
{
    if cnt == 0 {
        1
    } else {
        let v = cnt - 1;
        sel_mono(k, free, fx, (cnt - 1) as nat) * if v == free {
            1
        } else {
            pow(fx[fixed_pos(v, free)], k[v] as nat)
        }
    }
}

/// `prod_{v < cnt, v != free} eq(b_v, fx[fixed_pos(v)])`.
pub open spec fn sel_eq(b: Seq<usize>, free: int, fx: Seq<int>, cnt: nat) -> int
    decreases cnt,
{
    if cnt == 0 {
        1
    } else {
        let v = cnt - 1;
        sel_eq(b, free, fx, (cnt - 1) as nat) * if v == free {
            1
        } else {
            eq_val(b[v], fx[fixed_pos(v, free)])
        }
    }
}

/// `sum_{i < cnt, idxs[i][free] == e} p[i] * w(idxs[i], env)`, unreduced.
pub open spec fn ssum(p: Seq<PolyV>, idxs: Seq<Seq<usize>>, free: int, e: int, w: spec_fn(Seq<usize>, Env) -> int, env: Env, cnt: nat) -> int
    decreases cnt,
{
    if cnt == 0 {
        0
    } else {
        let i = cnt - 1;
        ssum(p, idxs, free, e, w, env, (cnt - 1) as nat) + if idxs[i][free] as int == e {
            eval(p[i], env) * w(idxs[i], env)
        } else {
            0
        }
    }
}

/// The monomial weight of the fixed variables.
pub open spec fn sel_mono_w(fixed: Seq<PolyV>, free: int, n: nat) -> spec_fn(Seq<usize>, Env) -> int {
    |k: Seq<usize>, env: Env| sel_mono(k, free, pevals(fixed, env), n)
}

/// The multilinear weight of the fixed variables.
pub open spec fn sel_eq_w(fixed: Seq<PolyV>, free: int, n: nat) -> spec_fn(Seq<usize>, Env) -> int {
    |b: Seq<usize>, env: Env| sel_eq(b, free, pevals(fixed, env), n)
}

/// The coefficients, in the free variable, that selected evaluation
/// produces: for a multivariate polynomial of degree `d`, coefficient `e`
/// gathers the terms of degree `e` in the free variable; for a multilinear
/// extension, the constant and linear coefficients of its restriction.
pub open spec fn sel_vals(tp: TypV, ps: Seq<PolyV>, free: int, fixed: Seq<PolyV>) -> Seq<spec_fn(Env) -> int> {
    match tp {
        TypV::VPoly(n, d) => Seq::new(d + 1, |e: int| (|env: Env| ssum(ps, mi_seq(n, d), free, e, sel_mono_w(fixed, free, n), env, ps.len()))),
        TypV::Mle(n) => seq![
            (|env: Env| ssum(ps, cube_seq(n), free, 0, sel_eq_w(fixed, free, n), env, ps.len())),
            (|env: Env| ssum(ps, cube_seq(n), free, 1, sel_eq_w(fixed, free, n), env, ps.len())
                - ssum(ps, cube_seq(n), free, 0, sel_eq_w(fixed, free, n), env, ps.len())),
        ],
        _ => Seq::empty(),
    }
}

/// The shapes selected evaluation handles.
pub open spec fn sel_shape_ok(tp: TypV, free: nat, nfixed: nat) -> bool {
    match tp {
        TypV::VPoly(n, d) => free < n && nfixed + 1 == n && n + d <= usize::MAX,
        TypV::Mle(n) => free < n && nfixed + 1 == n,
        _ => false,
    }
}

fn sel_mono_poly(ki: &Vec<usize>, free: usize, n: usize, fixed: &Vec<Polynomial>) -> (r: Polynomial)
    requires
        ki@.len() == n,
        free < n,
        fixed@.len() + 1 == n,
    ensures
        forall|env: Env| #[trigger] eval(r@, env) as int == sel_mono(ki@, free as int, pevals(pviews(fixed@), env), n as nat) % (modulus() as int),
{
    let ghost m = modulus() as int;
    let mut acc = Polynomial::lit(&Fe::one());
    proof {
        assert forall|env: Env| #[trigger] eval(acc@, env) as int == sel_mono(ki@, free as int, pevals(pviews(fixed@), env), 0) % m by {
            vstd::arithmetic::div_mod::lemma_small_mod(1, modulus());
        }
    }
    let mut fi: usize = 0;
    let mut v: usize = 0;
    while v < n
        invariant
            v <= n,
            ki@.len() == n,
            free < n,
            fixed@.len() + 1 == n,
            m == modulus() as int,
            fi as int == if v <= free { v as int } else { v - 1 },
            forall|env: Env| #[trigger] eval(acc@, env) as int == sel_mono(ki@, free as int, pevals(pviews(fixed@), env), v as nat) % m,
        decreases n - v,
    {
        if v == free {
            proof {
                assert forall|env: Env| #[trigger] eval(acc@, env) as int == sel_mono(ki@, free as int, pevals(pviews(fixed@), env), (v + 1) as nat) % m by {
                    let s0 = sel_mono(ki@, free as int, pevals(pviews(fixed@), env), v as nat);
                    assert(s0 * 1 == s0);
                }
            }
        } else {
            assert(fi as int == fixed_pos(v as int, free as int));
            if ki[v] > 0 {
                let xp = fixed[fi].pow(ki[v]);
                let next = acc.mul(&xp);
                proof {
                    assert forall|env: Env| #[trigger] eval(next@, env) as int == sel_mono(ki@, free as int, pevals(pviews(fixed@), env), (v + 1) as nat) % m by {
                        let fx = pevals(pviews(fixed@), env);
                        assert(pviews(fixed@)[fi as int] == fixed@[fi as int]@);
                        let x = fx[fi as int];
                        let s0 = sel_mono(ki@, free as int, fx, v as nat);
                        let p = pow(x, ki@[v as int] as nat);
                        crate::poly::lemma_pow_nonneg(x, ki@[v as int] as nat);
                        lemma_mul_step(s0, p, s0 * p, eval(acc@, env) as int, eval(xp@, env) as int, eval(next@, env) as int, m);
                    }
                }
                acc = next;
            } else {
                proof {
                    assert forall|env: Env| #[trigger] eval(acc@, env) as int == sel_mono(ki@, free as int, pevals(pviews(fixed@), env), (v + 1) as nat) % m by {
                        let fx = pevals(pviews(fixed@), env);
                        let s0 = sel_mono(ki@, free as int, fx, v as nat);
                        vstd::arithmetic::power::lemma_pow0(fx[fixed_pos(v as int, free as int)]);
                        assert(ki@[v as int] as nat == 0);
                        assert(sel_mono(ki@, free as int, fx, (v + 1) as nat) == s0 * pow(fx[fixed_pos(v as int, free as int)], 0));
                        assert(s0 * 1 == s0);
                    }
                }
            }
            fi = fi + 1;
        }
        v = v + 1;
    }
    acc
}

fn sel_eq_poly(b: &Vec<usize>, free: usize, n: usize, fixed: &Vec<Polynomial>) -> (r: Polynomial)
    requires
        b@.len() == n,
        free < n,
        fixed@.len() + 1 == n,
    ensures
        forall|env: Env| #[trigger] eval(r@, env) as int == sel_eq(b@, free as int, pevals(pviews(fixed@), env), n as nat) % (modulus() as int),
{
    let ghost m = modulus() as int;
    let one = Polynomial::lit(&Fe::one());
    let mut acc = Polynomial::lit(&Fe::one());
    proof {
        assert forall|env: Env| #[trigger] eval(acc@, env) as int == sel_eq(b@, free as int, pevals(pviews(fixed@), env), 0) % m by {
            vstd::arithmetic::div_mod::lemma_small_mod(1, modulus());
        }
    }
    let mut fi: usize = 0;
    let mut v: usize = 0;
    while v < n
        invariant
            v <= n,
            b@.len() == n,
            free < n,
            fixed@.len() + 1 == n,
            m == modulus() as int,
            one@ == crate::polyv::lit(1),
            fi as int == if v <= free { v as int } else { v - 1 },
            forall|env: Env| #[trigger] eval(acc@, env) as int == sel_eq(b@, free as int, pevals(pviews(fixed@), env), v as nat) % m,
        decreases n - v,
    {
        if v == free {
            proof {
                assert forall|env: Env| #[trigger] eval(acc@, env) as int == sel_eq(b@, free as int, pevals(pviews(fixed@), env), (v + 1) as nat) % m by {
                    let s0 = sel_eq(b@, free as int, pevals(pviews(fixed@), env), v as nat);
                    assert(s0 * 1 == s0);
                }
            }
        } else {
            assert(fi as int == fixed_pos(v as int, free as int));
            let f = if b[v] == 1 {
                fixed[fi].clone()
            } else {
                one.sub(&fixed[fi])
            };
            let next = acc.mul(&f);
            proof {
                assert forall|env: Env| #[trigger] eval(next@, env) as int == sel_eq(b@, free as int, pevals(pviews(fixed@), env), (v + 1) as nat) % m by {
                    let fx = pevals(pviews(fixed@), env);
                    assert(pviews(fixed@)[fi as int] == fixed@[fi as int]@);
                    let x = fx[fi as int];
                    let e = eq_val(b@[v as int], x);
                    assert(eval(f@, env) as int == e % m) by {
                        vstd::arithmetic::div_mod::lemma_small_mod(x as nat, modulus());
                        if b@[v as int] != 1 {
                            assert(eval(one@, env) == 1) by {
                                vstd::arithmetic::div_mod::lemma_small_mod(1, modulus());
                            }
                            crate::polyv::lemma_mod_diff(1, x, m);
                            vstd::arithmetic::div_mod::lemma_small_mod(1, modulus());
                        }
                    }
                    let s0 = sel_eq(b@, free as int, fx, v as nat);
                    lemma_mul_step(s0, e, s0 * e, eval(acc@, env) as int, eval(f@, env) as int, eval(next@, env) as int, m);
                }
            }
            acc = next;
            fi = fi + 1;
        }
        v = v + 1;
    }
    acc
}

proof fn lemma_add_term(s: int, t: int, sv: int, tv: int, r: int, m: int)
    requires
        m > 0,
        sv == s % m,
        tv == t % m,
        r == (sv + tv) % m,
    ensures
        r == (s + t) % m,
{
    vstd::arithmetic::div_mod::lemma_add_mod_noop(s, t, m);
}

/// Selected evaluation: keep variable `free` of `p` free and substitute the
/// slots of `fixed`, in order, for the others; the coefficients of the
/// remaining univariate polynomial, see [`sel_vals`]. `None` for shapes
/// other than a multivariate polynomial or a multilinear extension with
/// one fixed value per other variable.
pub fn selected_eval_to_poly(ideal: &Ideal, p: &Operand, free: usize, fixed: &Operand) -> (r: Option<Vec<Polynomial>>)
    requires
        ideal.wf(),
        operand_ok(*p, *ideal),
        operand_ok(*fixed, *ideal),
        operand_polys(*p, *ideal).len() == plen(op_typ(*p)),
    ensures
        r is Some <==> sel_shape_ok(op_typ(*p), free as nat, operand_polys(*fixed, *ideal).len()),
        r matches Some(v) ==> denotes(pviews(v@), sel_vals(op_typ(*p), operand_polys(*p, *ideal), free as int, operand_polys(*fixed, *ideal))),
{
    let ghost m = modulus() as int;
    let fixed_polys = PolySource::ref_vars(fixed, ideal);
    let p_polys = PolySource::ref_vars(p, ideal);
    let ghost pv = pviews(p_polys@);
    let nf = fixed_polys.len();
    match p.typ() {
        ATyp::VPoly(n, d) => {
            if !(free < *n && nf == *n - 1 && *d <= usize::MAX - *n) {
                return None;
            }
            let all = multi_indices(*n, *d);
            let ghost w = sel_mono_w(pviews(fixed_polys@), free as int, *n as nat);
            proof {
                if *d > 0 {
                    crate::typ::lemma_binom_at_least((*n + *d) as nat, *n as nat);
                }
            }
            let len = *d + 1;
            let mut out: Vec<Polynomial> = Vec::new();
            let mut e: usize = 0;
            while e < len
                invariant
                    e <= len,
                    out@.len() == e,
                    forall|q: int| 0 <= q < e ==> #[trigger] out@[q]@ == crate::polyv::lit(0),
                decreases len - e,
            {
                out.push(Polynomial::zero());
                e = e + 1;
            }
            proof {
                assert forall|q: int, env: Env| 0 <= q < len implies #[trigger] eval(out@[q]@, env) as int
                    == ssum(pv, mi_seq(*n as nat, *d as nat), free as int, q, w, env, 0) % m by {
                    vstd::arithmetic::div_mod::lemma_small_mod(0, modulus());
                }
            }
            let mut i: usize = 0;
            while i < all.len()
                invariant
                    i <= all@.len(),
                    len == *d + 1,
                    free < *n,
                    nf + 1 == *n,
                    nf == fixed_polys@.len(),
                    m == modulus() as int,
                    pv == pviews(p_polys@),
                    p_polys@.len() == all@.len(),
                    w == sel_mono_w(pviews(fixed_polys@), free as int, *n as nat),
                    mi_views(all@) == mi_seq(*n as nat, *d as nat),
                    forall|q: int| 0 <= q < all@.len() ==> crate::combinatorics::is_multi_index(#[trigger] all@[q]@, *n as nat, *d as nat),
                    out@.len() == len,
                    forall|q: int, env: Env| 0 <= q < len ==> #[trigger] eval(out@[q]@, env) as int
                        == ssum(pv, mi_seq(*n as nat, *d as nat), free as int, q, w, env, i as nat) % m,
                decreases all@.len() - i,
            {
                assert(crate::combinatorics::is_multi_index(all@[i as int]@, *n as nat, *d as nat));
                assert(mi_views(all@)[i as int] == all@[i as int]@);
                proof {
                    crate::arith::lemma_entry_le_sum(all@[i as int]@, free as int);
                }
                let e = all[i][free];
                let wp = sel_mono_poly(&all[i], free, *n, &fixed_polys);
                let term = p_polys[i].mul(&wp);
                let next = out[e].add(&term);
                let ghost old_out = out@;
                out.set(e, next);
                proof {
                    assert forall|q: int, env: Env| 0 <= q < len implies #[trigger] eval(out@[q]@, env) as int
                        == ssum(pv, mi_seq(*n as nat, *d as nat), free as int, q, w, env, (i + 1) as nat) % m by {
                        if q == e {
                            let a = eval(pv[i as int], env) as int;
                            let wv = w(all@[i as int]@, env);
                            assert(pv[i as int] == p_polys@[i as int]@);
                            vstd::arithmetic::div_mod::lemma_mul_mod_noop_right(a, wv, m);
                            lemma_add_term(ssum(pv, mi_seq(*n as nat, *d as nat), free as int, q, w, env, i as nat), a * wv,
                                eval(old_out[q]@, env) as int, eval(term@, env) as int, eval(next@, env) as int, m);
                        } else {
                            assert(out@[q] == old_out[q]);
                        }
                    }
                }
                i = i + 1;
            }
            proof {
                let want = sel_vals(op_typ(*p), pv, free as int, pviews(fixed_polys@));
                assert forall|t: int, env: Env| 0 <= t < pviews(out@).len() implies #[trigger] eval(pviews(out@)[t], env) == want[t](env) % m by {
                    assert(pviews(out@)[t] == out@[t]@);
                }
            }
            Some(out)
        },
        ATyp::Mle(n) => {
            if !(free < *n && nf == *n - 1) {
                return None;
            }
            let total = p_polys.len();
            assert(total == pow2(*n as nat));
            let all = hypercube(*n);
            assert(mi_views(all@) =~= cube_seq(*n as nat));
            let ghost w = sel_eq_w(pviews(fixed_polys@), free as int, *n as nat);
            let ghost cs = cube_seq(*n as nat);
            let mut out0 = Polynomial::zero();
            let mut out1 = Polynomial::zero();
            proof {
                assert forall|env: Env| #[trigger] eval(out0@, env) as int == ssum(pv, cs, free as int, 0, w, env, 0) % m by {
                    vstd::arithmetic::div_mod::lemma_small_mod(0, modulus());
                }
                assert forall|env: Env| #[trigger] eval(out1@, env) as int
                    == (ssum(pv, cs, free as int, 1, w, env, 0) - ssum(pv, cs, free as int, 0, w, env, 0)) % m by {
                    vstd::arithmetic::div_mod::lemma_small_mod(0, modulus());
                }
            }
            let mut i: usize = 0;
            while i < all.len()
                invariant
                    i <= all@.len(),
                    free < *n,
                    nf + 1 == *n,
                    nf == fixed_polys@.len(),
                    m == modulus() as int,
                    pv == pviews(p_polys@),
                    p_polys@.len() == all@.len(),
                    w == sel_eq_w(pviews(fixed_polys@), free as int, *n as nat),
                    cs == cube_seq(*n as nat),
                    mi_views(all@) == cs,
                    forall|q: int| 0 <= q < all@.len() ==> #[trigger] all@[q]@ == cube_point(q as nat, *n as nat),
                    forall|env: Env| #[trigger] eval(out0@, env) as int == ssum(pv, cs, free as int, 0, w, env, i as nat) % m,
                    forall|env: Env| #[trigger] eval(out1@, env) as int
                        == (ssum(pv, cs, free as int, 1, w, env, i as nat) - ssum(pv, cs, free as int, 0, w, env, i as nat)) % m,
                decreases all@.len() - i,
            {
                assert(all@[i as int]@ == cube_point(i as nat, *n as nat));
                assert(cs[i as int] == all@[i as int]@);
                let wp = sel_eq_poly(&all[i], free, *n, &fixed_polys);
                let term = p_polys[i].mul(&wp);
                let bit = all[i][free];
                proof {
                    assert(bit == crate::combinatorics::bit(i as nat, free as nat));
                    assert(bit == 0 || bit == 1) by {
                        let pw = pow2(free as nat);
                        vstd::arithmetic::power2::lemma_pow2_pos(free as nat);
                    }
                }
                if bit == 0 {
                    let n0 = out0.add(&term);
                    let n1 = out1.sub(&term);
                    proof {
                        assert forall|env: Env| #[trigger] eval(n0@, env) as int == ssum(pv, cs, free as int, 0, w, env, (i + 1) as nat) % m by {
                            let a = eval(pv[i as int], env) as int;
                            let wv = w(all@[i as int]@, env);
                            assert(pv[i as int] == p_polys@[i as int]@);
                            vstd::arithmetic::div_mod::lemma_mul_mod_noop_right(a, wv, m);
                            lemma_add_term(ssum(pv, cs, free as int, 0, w, env, i as nat), a * wv,
                                eval(out0@, env) as int, eval(term@, env) as int, eval(n0@, env) as int, m);
                        }
                        assert forall|env: Env| #[trigger] eval(n1@, env) as int
                            == (ssum(pv, cs, free as int, 1, w, env, (i + 1) as nat) - ssum(pv, cs, free as int, 0, w, env, (i + 1) as nat)) % m by {
                            let a = eval(pv[i as int], env) as int;
                            let wv = w(all@[i as int]@, env);
                            assert(pv[i as int] == p_polys@[i as int]@);
                            let d0 = ssum(pv, cs, free as int, 1, w, env, i as nat) - ssum(pv, cs, free as int, 0, w, env, i as nat);
                            vstd::arithmetic::div_mod::lemma_mul_mod_noop_right(a, wv, m);
                            crate::polyv::lemma_mod_diff(d0, a * wv, m);
                            vstd::arithmetic::div_mod::lemma_mod_twice(d0, m);
                            vstd::arithmetic::div_mod::lemma_mod_twice(a * wv, m);
                        }
                    }
                    out0 = n0;
                    out1 = n1;
                } else {
                    let n1 = out1.add(&term);
                    proof {
                        assert forall|env: Env| #[trigger] eval(n1@, env) as int
                            == (ssum(pv, cs, free as int, 1, w, env, (i + 1) as nat) - ssum(pv, cs, free as int, 0, w, env, (i + 1) as nat)) % m by {
                            let a = eval(pv[i as int], env) as int;
                            let wv = w(all@[i as int]@, env);
                            assert(pv[i as int] == p_polys@[i as int]@);
                            let d0 = ssum(pv, cs, free as int, 1, w, env, i as nat) - ssum(pv, cs, free as int, 0, w, env, i as nat);
                            vstd::arithmetic::div_mod::lemma_mul_mod_noop_right(a, wv, m);
                            lemma_add_term(d0, a * wv, eval(out1@, env) as int, eval(term@, env) as int, eval(n1@, env) as int, m);
                        }
                    }
                    out1 = n1;
                }
                i = i + 1;
            }
            let mut out: Vec<Polynomial> = Vec::new();
            out.push(out0);
            out.push(out1);
            proof {
                let want = sel_vals(op_typ(*p), pv, free as int, pviews(fixed_polys@));
                assert forall|t: int, env: Env| 0 <= t < pviews(out@).len() implies #[trigger] eval(pviews(out@)[t], env) == want[t](env) % m by {
                    assert(pviews(out@)[t] == out@[t]@);
                }
            }
            Some(out)
        },
        _ => None,
    }
}

/// What an evaluation into `var` needs, by the form it takes: points to
/// evaluate at, a free variable with values for the others, or neither.
pub open spec fn evaluate_ok(ideal: Ideal, var: VarV, p: Operand, free: Option<usize>, pts: Option<Operand>) -> bool {
    &&& slots_ok(var.typ)
    &&& operand_ok(p, ideal)
    &&& operand_polys(p, ideal).len() == plen(op_typ(p))
    &&& match (free, pts) {
        (None, Some(xs)) => {
            &&& eval_ok(ideal, p, xs)
            &&& liftable(raw_eval_typ(op_typ(p), operand_polys(xs, ideal).len(), var.typ), var.typ)
            &&& plen(var.typ) <= usize::MAX
            &&& slot_list(var).len() == plen(var.typ)
        },
        (Some(f), Some(fixed)) => {
            &&& operand_ok(fixed, ideal)
            &&& sel_shape_ok(op_typ(p), f as nat, operand_polys(fixed, ideal).len()) ==> slot_list(var).len()
                == sel_vals(op_typ(p), operand_polys(p, ideal), f as int, operand_polys(fixed, ideal)).len()
        },
        (None, None) => crate::fft::transform_ok(ideal, var, p),
        _ => true,
    }
}

/// Encode an evaluation into `var`: at the points `pts`, the values lifted
/// to `var`'s shape; keeping variable `free` free with the other variables
/// fixed to `pts`, the coefficients in the free variable; with neither, the
/// DFT over the field's roots of unity. `Err` for a selected evaluation of
/// an unsupported shape, for a free variable without values, and for a
/// grid size with no root of unity, with nothing bound.
pub fn evaluate_op(ideal: &mut Ideal, var: &Var, p: &Operand, free: Option<usize>, pts: Option<&Operand>) -> (r: Result<(), String>)
    requires
        old(ideal).wf(),
        evaluate_ok(*old(ideal), var@, *p, free, match pts { Some(x) => Some(*x), None => None }),
    ensures
        r is Err ==> *final(ideal) == *old(ideal),
        (free is None && pts is Some) ==> {
            let xs = *pts->0;
            &&& r is Ok
            &&& exists|vals: Seq<PolyV>, out: Seq<PolyV>| #![trigger lifted(raw_eval_typ(op_typ(*p), operand_polys(xs, *old(ideal)).len(), var.typ@), var.typ@, vals, out)]
                denotes(vals, eval_vals(op_typ(*p), operand_polys(*p, *old(ideal)), operand_polys(xs, *old(ideal))))
                && lifted(raw_eval_typ(op_typ(*p), operand_polys(xs, *old(ideal)).len(), var.typ@), var.typ@, vals, out)
                && encodes(*old(ideal), *final(ideal), slot_list(var@), poly_vals(out))
        },
        (free is Some && pts is Some) ==> {
            let fixed = *pts->0;
            let f = free->0;
            &&& r is Ok <==> sel_shape_ok(op_typ(*p), f as nat, operand_polys(fixed, *old(ideal)).len())
            &&& r is Ok ==> exists|out: Seq<PolyV>|
                #[trigger] denotes(out, sel_vals(op_typ(*p), operand_polys(*p, *old(ideal)), f as int, operand_polys(fixed, *old(ideal))))
                && encodes(*old(ideal), *final(ideal), slot_list(var@), poly_vals(out))
        },
        (free is None && pts is None) ==> {
            let n = operand_polys(*p, *old(ideal)).len();
            &&& r is Ok <==> crate::field::root_of_unity(n as u64) is Some
            &&& r is Ok ==> encodes(*old(ideal), *final(ideal), slot_list(var@),
                crate::fft::dft_vals(operand_polys(*p, *old(ideal)), crate::field::root_of_unity(n as u64)->0))
        },
        (free is Some && pts is None) ==> r is Err,
{
    match (free, pts) {
        (None, Some(xs)) => {
            let polys = eval_to_poly_as(ideal, p, xs, &var.typ);
            let ghost out = pviews(polys@);
            link_to_polys(ideal, var, polys);
            Ok(())
        },
        (Some(f), Some(fixed)) => {
            match selected_eval_to_poly(ideal, p, f, fixed) {
                Some(polys) => {
                    let ghost out = pviews(polys@);
                    link_to_polys(ideal, var, polys);
                    Ok(())
                },
                None => Err("ideal: operation has no polynomial-ideal treatment at selected-evaluate".to_owned()),
            }
        },
        (None, None) => {
            if crate::fft::encode_dft(ideal, var, p) {
                Ok(())
            } else {
                Err("Evaluate grid size must have a root of unity".to_owned())
            }
        },
        (Some(_), None) => Err("ideal: operation has no polynomial-ideal treatment at selected-evaluate-missing-points".to_owned()),
    }
}
} // verus!

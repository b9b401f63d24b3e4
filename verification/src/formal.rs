//! The expanded form of a polynomial: its terms, coefficient by monomial,
//! and a decision of whether it is formally a constant (every non-constant
//! monomial's coefficient cancels to zero), as the canonical form of the
//! polynomial ring reads it.
use vstd::prelude::*;
use vstd::arithmetic::power::pow;
use vstd::arithmetic::div_mod::*;

use crate::field::{modulus, Fe};
use crate::poly::{fe_pow, Polynomial};
use crate::polyv::{eval, Env, PolyV};
use crate::var::{Var, VarV};

verus! {

broadcast use crate::field::lemma_val_lt;

/// A monomial: variables with exponents; a variable may be listed more
/// than once, its exponent being the sum.
pub type MonoV = Seq<(VarV, nat)>;

/// A term: a monomial and a coefficient below the modulus.
pub type TermV = (MonoV, nat);

/// The exponent of `v` in `m`.
pub open spec fn mexp(m: MonoV, v: VarV) -> nat
    decreases m.len(),
{
    if m.len() == 0 {
        0
    } else {
        mexp(m.drop_last(), v) + if m.last().0 == v { m.last().1 } else { 0 }
    }
}

/// The two monomials give every variable the same exponent.
pub open spec fn same_mono(a: MonoV, b: MonoV) -> bool {
    forall|v: VarV| #[trigger] mexp(a, v) == mexp(b, v)
}

/// The monomial of degree zero.
pub open spec fn is_unit(m: MonoV) -> bool {
    forall|v: VarV| #[trigger] mexp(m, v) == 0
}

pub open spec fn tmul(a: TermV, b: TermV) -> TermV {
    (a.0 + b.0, (a.1 * b.1) % modulus())
}

pub open spec fn tneg(ts: Seq<TermV>) -> Seq<TermV> {
    ts.map_values(|t: TermV| (t.0, ((modulus() - t.1) as nat) % modulus()))
}

/// Every term of `x` times every term of `y`, row by row.
pub open spec fn tprod(x: Seq<TermV>, y: Seq<TermV>) -> Seq<TermV>
    decreases x.len(),
{
    if x.len() == 0 {
        Seq::empty()
    } else {
        tprod(x.drop_last(), y) + y.map_values(|u: TermV| tmul(x.last(), u))
    }
}

pub open spec fn unit_terms() -> Seq<TermV> {
    seq![(Seq::<(VarV, nat)>::empty(), 1nat)]
}

/// The `k`-fold product of `x`.
pub open spec fn tpow(x: Seq<TermV>, k: nat) -> Seq<TermV>
    decreases k,
{
    if k == 0 {
        unit_terms()
    } else {
        tprod(tpow(x, (k - 1) as nat), x)
    }
}

/// The terms of `p` multiplied out, like terms not yet collected.
pub open spec fn terms(p: PolyV) -> Seq<TermV>
    decreases p,
{
    match p {
        PolyV::Lit(c) => seq![(Seq::<(VarV, nat)>::empty(), c % modulus())],
        PolyV::Var(v) => seq![(seq![(v, 1nat)], 1nat)],
        PolyV::Add(a, b) => terms(*a) + terms(*b),
        PolyV::Sub(a, b) => terms(*a) + tneg(terms(*b)),
        PolyV::Mul(a, b) => tprod(terms(*a), terms(*b)),
        PolyV::Neg(a) => tneg(terms(*a)),
        PolyV::Pow(a, k) => tpow(terms(*a), k),
    }
}

/// The coefficient of the monomial `m` among the terms `ts`, before
/// reduction.
pub open spec fn coef(ts: Seq<TermV>, m: MonoV) -> nat
    decreases ts.len(),
{
    if ts.len() == 0 {
        0
    } else {
        coef(ts.drop_last(), m) + if same_mono(ts.last().0, m) { ts.last().1 } else { 0 }
    }
}

/// `p` is, in canonical form, the constant `c`: the constant monomial has
/// coefficient `c` and every other monomial's coefficient cancels.
pub open spec fn formally_const(p: PolyV, c: nat) -> bool {
    &&& coef(terms(p), Seq::empty()) % modulus() == c
    &&& forall|m: MonoV| !is_unit(m) ==> #[trigger] coef(terms(p), m) % modulus() == 0
}

/// The multiplied-out form has at most `usize::MAX` terms, none with an
/// exponent above `usize::MAX`.
pub open spec fn fits(ts: Seq<TermV>) -> bool {
    &&& ts.len() <= usize::MAX
    &&& forall|i: int, v: VarV| 0 <= i < ts.len() ==> #[trigger] mexp(ts[i].0, v) <= usize::MAX
}

// ---------------------------------------------------------------- lemmas

#[verifier::spinoff_prover]
proof fn lemma_mexp_concat(a: MonoV, b: MonoV, v: VarV)
    ensures
        mexp(a + b, v) == mexp(a, v) + mexp(b, v),
    decreases b.len(),
{
    if b.len() == 0 {
        assert(a + b =~= a);
    } else {
        lemma_mexp_concat(a, b.drop_last(), v);
        assert((a + b).drop_last() =~= a + b.drop_last());
    }
}

#[verifier::spinoff_prover]
proof fn lemma_tprod_len(x: Seq<TermV>, y: Seq<TermV>)
    ensures
        tprod(x, y).len() == x.len() * y.len(),
    decreases x.len(),
{
    if x.len() > 0 {
        lemma_tprod_len(x.drop_last(), y);
        assert((x.len() - 1) * y.len() + y.len() == x.len() * y.len()) by (nonlinear_arith);
    }
}

#[verifier::spinoff_prover]
proof fn lemma_tprod_at(x: Seq<TermV>, y: Seq<TermV>, i: int, j: int)
    requires
        0 <= i < x.len(),
        0 <= j < y.len(),
    ensures
        0 <= i * y.len() + j < x.len() * y.len(),
        tprod(x, y)[i * y.len() + j] == tmul(x[i], y[j]),
    decreases x.len(),
{
    lemma_tprod_len(x, y);
    lemma_tprod_len(x.drop_last(), y);
    assert(0 <= i * y.len() + j < x.len() * y.len()) by (nonlinear_arith)
        requires
            0 <= i < x.len(),
            0 <= j < y.len(),
    ;
    if i < x.len() - 1 {
        lemma_tprod_at(x.drop_last(), y, i, j);
    } else {
        assert(i * y.len() == (x.len() - 1) * y.len());
    }
}

/// Every entry of a row-by-row product is some pair's product.
#[verifier::spinoff_prover]
proof fn lemma_tprod_index(x: Seq<TermV>, y: Seq<TermV>, q: int)
    requires
        0 <= q < tprod(x, y).len(),
    ensures
        exists|i: int, j: int| 0 <= i < x.len() && 0 <= j < y.len() && tprod(x, y)[q] == tmul(x[i], y[j]),
    decreases x.len(),
{
    lemma_tprod_len(x.drop_last(), y);
    let n0 = tprod(x.drop_last(), y).len();
    if q < n0 {
        lemma_tprod_index(x.drop_last(), y, q);
        let (i, j) = choose|i: int, j: int| 0 <= i < x.drop_last().len() && 0 <= j < y.len() && tprod(x.drop_last(), y)[q] == tmul(x.drop_last()[i], y[j]);
        assert(x[i] == x.drop_last()[i]);
    } else {
        let j = q - n0;
        assert(tprod(x, y)[q] == tmul(x.last(), y[j]));
    }
}

#[verifier::spinoff_prover]
proof fn lemma_terms_nonempty(p: PolyV)
    ensures
        terms(p).len() >= 1,
    decreases p,
{
    match p {
        PolyV::Add(a, b) | PolyV::Sub(a, b) => {
            lemma_terms_nonempty(*a);
        },
        PolyV::Mul(a, b) => {
            lemma_terms_nonempty(*a);
            lemma_terms_nonempty(*b);
            lemma_tprod_len(terms(*a), terms(*b));
            assert(terms(*a).len() * terms(*b).len() >= 1) by (nonlinear_arith)
                requires
                    terms(*a).len() >= 1,
                    terms(*b).len() >= 1,
            ;
        },
        PolyV::Neg(a) => lemma_terms_nonempty(*a),
        PolyV::Pow(a, k) => {
            lemma_terms_nonempty(*a);
            lemma_tpow_nonempty(terms(*a), k);
        },
        _ => {},
    }
}

#[verifier::spinoff_prover]
proof fn lemma_tpow_nonempty(x: Seq<TermV>, k: nat)
    requires
        x.len() >= 1,
    ensures
        tpow(x, k).len() >= 1,
    decreases k,
{
    if k > 0 {
        lemma_tpow_nonempty(x, (k - 1) as nat);
        lemma_tprod_len(tpow(x, (k - 1) as nat), x);
        assert(tpow(x, (k - 1) as nat).len() * x.len() >= 1) by (nonlinear_arith)
            requires
                tpow(x, (k - 1) as nat).len() >= 1,
                x.len() >= 1,
        ;
    }
}

/// A product that fits has factors that fit.
#[verifier::spinoff_prover]
proof fn lemma_fits_factors(x: Seq<TermV>, y: Seq<TermV>)
    requires
        x.len() >= 1,
        y.len() >= 1,
        fits(tprod(x, y)),
    ensures
        fits(x),
        fits(y),
{
    lemma_tprod_len(x, y);
    assert(x.len() <= x.len() * y.len()) by (nonlinear_arith)
        requires
            y.len() >= 1,
    ;
    assert(y.len() <= x.len() * y.len()) by (nonlinear_arith)
        requires
            x.len() >= 1,
    ;
    assert forall|i: int, v: VarV| 0 <= i < x.len() implies #[trigger] mexp(x[i].0, v) <= usize::MAX by {
        lemma_tprod_at(x, y, i, 0);
        lemma_mexp_concat(x[i].0, y[0].0, v);
        assert(mexp(tprod(x, y)[i * y.len() + 0].0, v) <= usize::MAX);
    }
    assert forall|j: int, v: VarV| 0 <= j < y.len() implies #[trigger] mexp(y[j].0, v) <= usize::MAX by {
        lemma_tprod_at(x, y, 0, j);
        lemma_mexp_concat(x[0].0, y[j].0, v);
        assert(mexp(tprod(x, y)[0 * y.len() + j].0, v) <= usize::MAX);
    }
}

#[verifier::spinoff_prover]
proof fn lemma_fits_tpow(x: Seq<TermV>, j: nat, k: nat)
    requires
        x.len() >= 1,
        1 <= j <= k,
        fits(tpow(x, k)),
    ensures
        fits(tpow(x, j)),
        fits(x),
    decreases k - j,
{
    lemma_tpow_nonempty(x, (k - 1) as nat);
    lemma_fits_factors(tpow(x, (k - 1) as nat), x);
    if j < k {
        lemma_fits_tpow(x, j, (k - 1) as nat);
    }
}

#[verifier::spinoff_prover]
proof fn lemma_fits_concat(a: Seq<TermV>, b: Seq<TermV>)
    requires
        fits(a + b),
    ensures
        fits(a),
        fits(b),
{
    assert forall|i: int, v: VarV| 0 <= i < a.len() implies #[trigger] mexp(a[i].0, v) <= usize::MAX by {
        assert((a + b)[i] == a[i]);
    }
    assert forall|i: int, v: VarV| 0 <= i < b.len() implies #[trigger] mexp(b[i].0, v) <= usize::MAX by {
        assert((a + b)[a.len() + i] == b[i]);
    }
}

#[verifier::spinoff_prover]
proof fn lemma_fits_tneg(a: Seq<TermV>)
    ensures
        fits(tneg(a)) == fits(a),
{
    let b = tneg(a);
    assert(b.len() == a.len());
    if fits(a) {
        assert forall|i: int, v: VarV| 0 <= i < b.len() implies #[trigger] mexp(b[i].0, v) <= usize::MAX by {
            assert(b[i].0 == a[i].0);
            assert(mexp(a[i].0, v) <= usize::MAX);
        }
    }
    if fits(b) {
        assert forall|i: int, v: VarV| 0 <= i < a.len() implies #[trigger] mexp(a[i].0, v) <= usize::MAX by {
            assert(b[i].0 == a[i].0);
            assert(mexp(b[i].0, v) <= usize::MAX);
        }
    }
}

/// The constituents of a polynomial whose terms fit fit too.
#[verifier::spinoff_prover]
proof fn lemma_fits_sub(p: PolyV)
    requires
        fits(terms(p)),
    ensures
        match p {
            PolyV::Add(a, b) | PolyV::Sub(a, b) | PolyV::Mul(a, b) => fits(terms(*a)) && fits(terms(*b)),
            PolyV::Neg(a) => fits(terms(*a)),
            PolyV::Pow(a, k) => k >= 1 ==> fits(terms(*a)),
            _ => true,
        },
{
    match p {
        PolyV::Add(a, b) => lemma_fits_concat(terms(*a), terms(*b)),
        PolyV::Sub(a, b) => {
            lemma_fits_concat(terms(*a), tneg(terms(*b)));
            lemma_fits_tneg(terms(*b));
        },
        PolyV::Mul(a, b) => {
            lemma_terms_nonempty(*a);
            lemma_terms_nonempty(*b);
            lemma_fits_factors(terms(*a), terms(*b));
        },
        PolyV::Neg(a) => lemma_fits_tneg(terms(*a)),
        PolyV::Pow(a, k) => {
            if k >= 1 {
                lemma_terms_nonempty(*a);
                lemma_fits_tpow(terms(*a), k, k);
            }
        },
        _ => {},
    }
}

/// Monomials the same, coefficients the same.
#[verifier::spinoff_prover]
proof fn lemma_coef_same(ts: Seq<TermV>, m1: MonoV, m2: MonoV)
    requires
        same_mono(m1, m2),
    ensures
        coef(ts, m1) == coef(ts, m2),
    decreases ts.len(),
{
    if ts.len() > 0 {
        lemma_coef_same(ts.drop_last(), m1, m2);
        if same_mono(ts.last().0, m1) {
            assert(same_mono(ts.last().0, m2));
        } else if same_mono(ts.last().0, m2) {
            assert forall|v: VarV| #[trigger] mexp(ts.last().0, v) == mexp(m1, v) by {
                assert(mexp(m1, v) == mexp(m2, v));
            }
        }
    }
}

/// With no term of that monomial, the coefficient is zero.
#[verifier::spinoff_prover]
proof fn lemma_coef_absent(ts: Seq<TermV>, m: MonoV)
    requires
        forall|i: int| 0 <= i < ts.len() ==> !same_mono(#[trigger] ts[i].0, m),
    ensures
        coef(ts, m) == 0,
    decreases ts.len(),
{
    if ts.len() > 0 {
        assert(!same_mono(ts[ts.len() - 1].0, m));
        lemma_coef_absent(ts.drop_last(), m);
    }
}

// ------------------------------------------------------- executable side

/// A monomial as held: variables with exponents.
pub open spec fn mview(m: Seq<(Var, usize)>) -> MonoV {
    m.map_values(|e: (Var, usize)| (e.0@, e.1 as nat))
}

/// Each variable listed once, with a positive exponent.
pub open spec fn good(m: Seq<(Var, usize)>) -> bool {
    &&& forall|i: int, j: int| 0 <= i < j < m.len() ==> m[i].0@ != m[j].0@
    &&& forall|i: int| 0 <= i < m.len() ==> #[trigger] m[i].1 >= 1
}

/// The held terms `xs` stand for the terms `ts`, one for one.
pub open spec fn represents(xs: Seq<(Vec<(Var, usize)>, Fe)>, ts: Seq<TermV>) -> bool {
    &&& xs.len() == ts.len()
    &&& forall|i: int| 0 <= i < xs.len() ==> #[trigger] good(xs[i].0@)
    &&& forall|i: int| 0 <= i < xs.len() ==> same_mono(mview(#[trigger] xs[i].0@), ts[i].0)
    &&& forall|i: int| 0 <= i < xs.len() ==> (#[trigger] xs[i]).1.val() == ts[i].1
}

/// In a good monomial, a listed variable's exponent is its entry's, an
/// unlisted one's is zero.
#[verifier::spinoff_prover]
proof fn lemma_mexp_good(m: Seq<(Var, usize)>, v: VarV)
    requires
        good(m),
    ensures
        (exists|k: int| 0 <= k < m.len() && m[k].0@ == v) ==> mexp(mview(m), v) == m[choose|k: int| 0 <= k < m.len() && m[k].0@ == v].1,
        (forall|k: int| 0 <= k < m.len() ==> m[k].0@ != v) ==> mexp(mview(m), v) == 0,
    decreases m.len(),
{
    if m.len() > 0 {
        let m2 = m.drop_last();
        assert(good(m2)) by {
            assert forall|i: int| 0 <= i < m2.len() implies #[trigger] m2[i].1 >= 1 by {
                assert(m2[i] == m[i]);
            }
        }
        lemma_mexp_good(m2, v);
        assert(mview(m).drop_last() =~= mview(m2));
        let last = m.len() - 1;
        if exists|k: int| 0 <= k < m.len() && m[k].0@ == v {
            let k = choose|k: int| 0 <= k < m.len() && m[k].0@ == v;
            if k == last {
                assert forall|t: int| 0 <= t < m2.len() implies m2[t].0@ != v by {
                    assert(m2[t] == m[t]);
                }
            } else {
                assert(m[last].0@ != v);
                assert(m2[k] == m[k]);
                let k2 = choose|t: int| 0 <= t < m2.len() && m2[t].0@ == v;
                assert(m2[k2] == m[k2]);
                assert(k2 == k);
            }
        } else {
            assert forall|t: int| 0 <= t < m2.len() implies m2[t].0@ != v by {
                assert(m2[t] == m[t]);
            }
        }
    }
}

/// The exponent of `v` in a good monomial.
#[verifier::spinoff_prover]
fn exp_of(m: &Vec<(Var, usize)>, v: &Var) -> (r: usize)
    requires
        good(m@),
    ensures
        r == mexp(mview(m@), v@),
{
    let mut k: usize = 0;
    while k < m.len()
        invariant
            k <= m@.len(),
            good(m@),
            forall|t: int| 0 <= t < k ==> m@[t].0@ != v@,
        decreases m@.len() - k,
    {
        if m[k].0.same(v) {
            proof {
                lemma_mexp_good(m@, v@);
                let c = choose|t: int| 0 <= t < m@.len() && m@[t].0@ == v@;
                if c != k {
                    if c < k {
                        assert(m@[c].0@ != v@);
                    } else {
                        assert(m@[k as int].0@ != m@[c].0@);
                    }
                }
            }
            return m[k].1;
        }
        k = k + 1;
    }
    proof {
        lemma_mexp_good(m@, v@);
    }
    0
}

/// Whether two good monomials give every variable the same exponent.
#[verifier::spinoff_prover]
fn mono_eq(a: &Vec<(Var, usize)>, b: &Vec<(Var, usize)>) -> (r: bool)
    requires
        good(a@),
        good(b@),
    ensures
        r == same_mono(mview(a@), mview(b@)),
{
    let mut i: usize = 0;
    while i < a.len()
        invariant
            i <= a@.len(),
            good(a@),
            good(b@),
            forall|t: int| 0 <= t < i ==> mexp(mview(b@), #[trigger] a@[t].0@) == a@[t].1,
        decreases a@.len() - i,
    {
        let e = exp_of(b, &a[i].0);
        if e != a[i].1 {
            proof {
                lemma_mexp_good(a@, a@[i as int].0@);
                let c = choose|k: int| 0 <= k < a@.len() && a@[k].0@ == a@[i as int].0@;
                if c != i {
                    assert(a@[c].0@ != a@[i as int].0@);
                }
                assert(mexp(mview(a@), a@[i as int].0@) != mexp(mview(b@), a@[i as int].0@));
            }
            return false;
        }
        i = i + 1;
    }
    let mut j: usize = 0;
    while j < b.len()
        invariant
            j <= b@.len(),
            good(a@),
            good(b@),
            forall|t: int| 0 <= t < a@.len() ==> mexp(mview(b@), #[trigger] a@[t].0@) == a@[t].1,
            forall|t: int| 0 <= t < j ==> mexp(mview(a@), #[trigger] b@[t].0@) == b@[t].1,
        decreases b@.len() - j,
    {
        let e = exp_of(a, &b[j].0);
        if e != b[j].1 {
            proof {
                lemma_mexp_good(b@, b@[j as int].0@);
                let c = choose|k: int| 0 <= k < b@.len() && b@[k].0@ == b@[j as int].0@;
                if c != j {
                    assert(b@[c].0@ != b@[j as int].0@);
                }
                assert(mexp(mview(a@), b@[j as int].0@) != mexp(mview(b@), b@[j as int].0@));
            }
            return false;
        }
        j = j + 1;
    }
    proof {
        assert forall|v: VarV| #[trigger] mexp(mview(a@), v) == mexp(mview(b@), v) by {
            lemma_mexp_good(a@, v);
            lemma_mexp_good(b@, v);
            if exists|k: int| 0 <= k < a@.len() && a@[k].0@ == v {
                let k = choose|k: int| 0 <= k < a@.len() && a@[k].0@ == v;
                assert(mexp(mview(b@), a@[k].0@) == a@[k].1);
            } else if exists|k: int| 0 <= k < b@.len() && b@[k].0@ == v {
                let k = choose|k: int| 0 <= k < b@.len() && b@[k].0@ == v;
                assert(mexp(mview(a@), b@[k].0@) == b@[k].1);
            }
        }
    }
    true
}


#[verifier::spinoff_prover]
proof fn lemma_mexp_update(m: MonoV, i: int, x: (VarV, nat), w: VarV)
    requires
        0 <= i < m.len(),
    ensures
        mexp(m.update(i, x), w) + (if m[i].0 == w { m[i].1 } else { 0 }) == mexp(m, w) + (if x.0 == w { x.1 } else { 0 }),
    decreases m.len(),
{
    let u = m.update(i, x);
    if i < m.len() - 1 {
        lemma_mexp_update(m.drop_last(), i, x, w);
        assert(u.drop_last() =~= m.drop_last().update(i, x));
    } else {
        assert(u.drop_last() =~= m.drop_last());
    }
}

/// The product of two good monomials, exponents added; `None` when an
/// exponent would pass `usize::MAX`.
#[verifier::spinoff_prover]
fn mono_mul(a: &Vec<(Var, usize)>, b: &Vec<(Var, usize)>) -> (r: Option<Vec<(Var, usize)>>)
    requires
        good(a@),
        good(b@),
    ensures
        r matches Some(m) ==> good(m@) && forall|v: VarV| #[trigger] mexp(mview(m@), v) == mexp(mview(a@), v) + mexp(mview(b@), v),
        r is None ==> exists|v: VarV| #[trigger] mexp(mview(a@), v) + mexp(mview(b@), v) > usize::MAX,
{
    let mut out: Vec<(Var, usize)> = Vec::new();
    let mut i: usize = 0;
    while i < a.len()
        invariant
            i <= a@.len(),
            good(a@),
            out@.len() == i,
            forall|t: int| 0 <= t < i ==> #[trigger] out@[t].0@ == a@[t].0@ && out@[t].1 == a@[t].1,
        decreases a@.len() - i,
    {
        let ghost ob = out@;
        out.push((a[i].0.clone(), a[i].1));
        proof {
            assert forall|t: int| 0 <= t < i + 1 implies #[trigger] out@[t].0@ == a@[t].0@ && out@[t].1 == a@[t].1 by {
                if t < i {
                    assert(out@[t] == ob[t]);
                }
            }
        }
        i = i + 1;
    }
    proof {
        assert(mview(out@) =~= mview(a@));
        assert(mview(b@).take(0) =~= Seq::<(VarV, nat)>::empty());
        assert(good(out@)) by {
            assert forall|x: int, y: int| 0 <= x < y < out@.len() implies out@[x].0@ != out@[y].0@ by {
                assert(out@[x].0@ == a@[x].0@ && out@[y].0@ == a@[y].0@);
            }
            assert forall|x: int| 0 <= x < out@.len() implies #[trigger] out@[x].1 >= 1 by {
                assert(out@[x].0@ == a@[x].0@);
                assert(out@[x].1 == a@[x].1);
            }
        }
    }
    let mut j: usize = 0;
    while j < b.len()
        invariant
            j <= b@.len(),
            good(a@),
            good(b@),
            good(out@),
            forall|v: VarV| #[trigger] mexp(mview(out@), v) == mexp(mview(a@), v) + mexp(mview(b@).take(j as int), v),
        decreases b@.len() - j,
    {
        let ghost ob = out@;
        let v = &b[j].0;
        let e = b[j].1;
        proof {
            assert(mview(b@).take(j + 1) =~= mview(b@).take(j as int).push((v@, e as nat)));
            assert(mview(b@).take(j + 1).drop_last() =~= mview(b@).take(j as int));
        }
        let mut k: usize = 0;
        while k < out.len() && !out[k].0.same(v)
            invariant
                k <= out@.len(),
                out@ == ob,
                forall|t: int| 0 <= t < k ==> out@[t].0@ != v@,
            decreases out@.len() - k,
        {
            k = k + 1;
        }
        if k < out.len() {
            let cur = out[k].1;
            proof {
                lemma_mexp_good(ob, v@);
                let c = choose|t: int| 0 <= t < ob.len() && ob[t].0@ == v@;
                if c != k {
                    if c < k {
                        assert(ob[c].0@ != v@);
                    } else {
                        assert(ob[k as int].0@ != ob[c].0@);
                    }
                }
            }
            if cur > usize::MAX - e {
                proof {
                    assert(mexp(mview(b@).take(j + 1), v@) == mexp(mview(b@).take(j as int), v@) + e);
                    assert(mexp(mview(b@).take(j + 1), v@) <= mexp(mview(b@), v@)) by {
                        lemma_mexp_prefix(mview(b@), j + 1, v@);
                    }
                    assert(mexp(mview(a@), v@) + mexp(mview(b@), v@) > usize::MAX);
                }
                return None;
            }
            let name = out[k].0.clone();
            out.set(k, (name, cur + e));
            proof {
                assert(mview(out@) =~= mview(ob).update(k as int, (v@, (cur + e) as nat)));
                assert forall|w: VarV| #[trigger] mexp(mview(out@), w) == mexp(mview(a@), w) + mexp(mview(b@).take(j + 1), w) by {
                    lemma_mexp_update(mview(ob), k as int, (v@, (cur + e) as nat), w);
                }
                assert(good(out@)) by {
                    assert forall|x: int, y: int| 0 <= x < y < out@.len() implies out@[x].0@ != out@[y].0@ by {
                        assert(out@[x].0@ == ob[x].0@ && out@[y].0@ == ob[y].0@);
                    }
                    assert forall|x: int| 0 <= x < out@.len() implies #[trigger] out@[x].1 >= 1 by {
                        if x != k {
                            assert(out@[x] == ob[x]);
                        }
                    }
                }
            }
        } else {
            out.push((v.clone(), e));
            proof {
                assert(mview(out@) =~= mview(ob).push((v@, e as nat)));
                assert(mview(out@).drop_last() =~= mview(ob));
                assert forall|w: VarV| #[trigger] mexp(mview(out@), w) == mexp(mview(a@), w) + mexp(mview(b@).take(j + 1), w) by {
                    assert(mexp(mview(ob), w) == mexp(mview(a@), w) + mexp(mview(b@).take(j as int), w));
                }
                assert(good(out@)) by {
                    assert forall|x: int, y: int| 0 <= x < y < out@.len() implies out@[x].0@ != out@[y].0@ by {
                        if y < ob.len() {
                            assert(out@[x] == ob[x] && out@[y] == ob[y]);
                        } else {
                            assert(out@[x] == ob[x]);
                        }
                    }
                    assert forall|x: int| 0 <= x < out@.len() implies #[trigger] out@[x].1 >= 1 by {
                        if x < ob.len() {
                            assert(out@[x] == ob[x]);
                        } else {
                            assert(b@[j as int].1 >= 1);
                        }
                    }
                }
            }
        }
        j = j + 1;
    }
    proof {
        assert(mview(b@).take(b@.len() as int) =~= mview(b@));
    }
    Some(out)
}

#[verifier::spinoff_prover]
proof fn lemma_mexp_prefix(m: MonoV, j: int, v: VarV)
    requires
        0 <= j <= m.len(),
    ensures
        mexp(m.take(j), v) <= mexp(m, v),
    decreases m.len() - j,
{
    if j < m.len() {
        lemma_mexp_prefix(m, j + 1, v);
        assert(m.take(j + 1).drop_last() =~= m.take(j));
    } else {
        assert(m.take(j) =~= m);
    }
}

/// The unit term, held.
#[verifier::spinoff_prover]
fn unit_held() -> (r: Vec<(Vec<(Var, usize)>, Fe)>)
    ensures
        represents(r@, unit_terms()),
{
    let mut r: Vec<(Vec<(Var, usize)>, Fe)> = Vec::new();
    r.push((Vec::new(), Fe::one()));
    proof {
        assert(mview(r@[0].0@) =~= Seq::<(VarV, nat)>::empty());
    }
    r
}

/// Every held term of `x` times every held term of `y`.
#[verifier::spinoff_prover]
fn prod_held(x: &Vec<(Vec<(Var, usize)>, Fe)>, y: &Vec<(Vec<(Var, usize)>, Fe)>, xs: Ghost<Seq<TermV>>, ys: Ghost<Seq<TermV>>)
    -> (r: Option<Vec<(Vec<(Var, usize)>, Fe)>>)
    requires
        represents(x@, xs@),
        represents(y@, ys@),
    ensures
        r matches Some(z) ==> represents(z@, tprod(xs@, ys@)),
        r is None ==> !fits(tprod(xs@, ys@)),
{
    let ghost xv = xs@;
    let ghost yv = ys@;
    proof {
        lemma_tprod_len(xv, yv);
    }
    if x.len().checked_mul(y.len()).is_none() {
        return None;
    }
    let mut out: Vec<(Vec<(Var, usize)>, Fe)> = Vec::new();
    let mut i: usize = 0;
    proof {
        assert(xv.take(0) =~= Seq::<TermV>::empty());
    }
    while i < x.len()
        invariant
            i <= x@.len(),
            xv == xs@,
            yv == ys@,
            represents(x@, xv),
            represents(y@, yv),
            represents(out@, tprod(xv.take(i as int), yv)),
        decreases x@.len() - i,
    {
        let ghost row0 = tprod(xv.take(i as int), yv);
        let mut j: usize = 0;
        proof {
            assert(row0 + yv.take(0).map_values(|u: TermV| tmul(xv[i as int], u)) =~= row0);
        }
        while j < y.len()
            invariant
                i < x@.len(),
                j <= y@.len(),
                xv == xs@,
                yv == ys@,
                represents(x@, xv),
                represents(y@, yv),
                row0 == tprod(xv.take(i as int), yv),
                represents(out@, row0 + yv.take(j as int).map_values(|u: TermV| tmul(xv[i as int], u))),
            decreases y@.len() - j,
        {
            let ghost ob = out@;
            let ghost tgt0 = row0 + yv.take(j as int).map_values(|u: TermV| tmul(xv[i as int], u));
            let ghost t = tmul(xv[i as int], yv[j as int]);
            proof {
                assert(good(x@[i as int].0@));
                assert(good(y@[j as int].0@));
            }
            let m = match mono_mul(&x[i].0, &y[j].0) {
                Some(m) => m,
                None => {
                    proof {
                        let v = choose|v: VarV| #[trigger] mexp(mview(x@[i as int].0@), v) + mexp(mview(y@[j as int].0@), v) > usize::MAX;
                        assert(same_mono(mview(x@[i as int].0@), xv[i as int].0));
                        assert(same_mono(mview(y@[j as int].0@), yv[j as int].0));
                        assert(mexp(mview(x@[i as int].0@), v) == mexp(xv[i as int].0, v));
                        assert(mexp(mview(y@[j as int].0@), v) == mexp(yv[j as int].0, v));
                        lemma_tprod_len(xv, yv);
                        lemma_tprod_at(xv, yv, i as int, j as int);
                        lemma_mexp_concat(xv[i as int].0, yv[j as int].0, v);
                        let q = (i as int) * (yv.len() as int) + (j as int);
                        assert(tprod(xv, yv)[q] == tmul(xv[i as int], yv[j as int]));
                        assert(mexp(tprod(xv, yv)[q].0, v) > usize::MAX);
                        assert(0 <= q < tprod(xv, yv).len());
                    }
                    return None;
                },
            };
            let c = x[i].1.mul(&y[j].1);
            out.push((m, c));
            proof {
                assert(yv.take(j + 1).map_values(|u: TermV| tmul(xv[i as int], u))
                    =~= yv.take(j as int).map_values(|u: TermV| tmul(xv[i as int], u)).push(t));
                let tgt = row0 + yv.take(j + 1).map_values(|u: TermV| tmul(xv[i as int], u));
                assert(tgt =~= tgt0.push(t));
                let nz = out@.len() - 1;
                assert(out@[nz] == (m, c));
                assert forall|v: VarV| #[trigger] mexp(mview(m@), v) == mexp(t.0, v) by {
                    assert(mexp(mview(x@[i as int].0@), v) == mexp(xv[i as int].0, v));
                    assert(mexp(mview(y@[j as int].0@), v) == mexp(yv[j as int].0, v));
                    lemma_mexp_concat(xv[i as int].0, yv[j as int].0, v);
                }
                assert forall|k: int| 0 <= k < out@.len() implies #[trigger] good(out@[k].0@) by {
                    if k < ob.len() {
                        assert(out@[k] == ob[k]);
                    }
                }
                assert forall|k: int| 0 <= k < out@.len() implies same_mono(mview(#[trigger] out@[k].0@), tgt[k].0) by {
                    if k < ob.len() {
                        assert(out@[k] == ob[k]);
                        assert(same_mono(mview(ob[k].0@), tgt0[k].0));
                    }
                }
                assert forall|k: int| 0 <= k < out@.len() implies (#[trigger] out@[k]).1.val() == tgt[k].1 by {
                    if k < ob.len() {
                        assert(out@[k] == ob[k]);
                        assert(ob[k].1.val() == tgt0[k].1);
                    }
                }
            }
            j = j + 1;
        }
        proof {
            assert(yv.take(yv.len() as int) =~= yv);
            assert(xv.take(i + 1).drop_last() =~= xv.take(i as int));
            assert(xv.take(i + 1).last() == xv[i as int]);
        }
        i = i + 1;
    }
    proof {
        assert(xv.take(xv.len() as int) =~= xv);
    }
    Some(out)
}


#[verifier::spinoff_prover]
proof fn lemma_tpow_single(x: Seq<TermV>, k: nat, v: VarV)
    requires
        x.len() == 1,
        x[0].1 < modulus(),
    ensures
        tpow(x, k).len() == 1,
        mexp(tpow(x, k)[0].0, v) == k * mexp(x[0].0, v),
        tpow(x, k)[0].1 == (pow(x[0].1 as int, k) as nat) % modulus(),
    decreases k,
{
    let c = x[0].1 as int;
    let md = modulus() as int;
    if k == 0 {
        assert(tpow(x, 0) == unit_terms());
        assert(unit_terms()[0].0 =~= Seq::<(VarV, nat)>::empty());
        assert(mexp(Seq::<(VarV, nat)>::empty(), v) == 0);
        assert(0 * mexp(x[0].0, v) == 0);
        vstd::arithmetic::power::lemma_pow0(c);
        lemma_small_mod(1, modulus());
    } else {
        let a = tpow(x, (k - 1) as nat);
        lemma_tpow_single(x, (k - 1) as nat, v);
        lemma_tprod_len(a, x);
        lemma_tprod_at(a, x, 0, 0);
        assert(tpow(x, k)[0] == tmul(a[0], x[0]));
        lemma_mexp_concat(a[0].0, x[0].0, v);
        let e = mexp(x[0].0, v);
        assert(((k - 1) as nat) * e + e == k * e) by (nonlinear_arith)
            requires
                k >= 1,
        ;
        assert(mexp(tpow(x, k)[0].0, v) == mexp(a[0].0, v) + e);
        let pk1 = pow(c, (k - 1) as nat);
        crate::poly::lemma_pow_nonneg(c, (k - 1) as nat);
        assert(pow(c, k) == c * pk1) by {
            vstd::arithmetic::power::lemma_pow_adds(c, (k - 1) as nat, 1);
            vstd::arithmetic::power::lemma_pow1(c);
            vstd::arithmetic::mul::lemma_mul_is_commutative(pk1, c);
        }
        lemma_mul_mod_noop_left(pk1, c, md);
        assert((pk1 % md) * c == c * (pk1 % md)) by (nonlinear_arith);
        assert(pk1 * c == c * pk1) by (nonlinear_arith);
        crate::poly::lemma_pow_nonneg(c, k);
    }
}

#[verifier::spinoff_prover]
proof fn lemma_mexp_scale(mm: MonoV, mk: MonoV, k: nat, v: VarV)
    requires
        mm.len() == mk.len(),
        forall|i: int| 0 <= i < mm.len() ==> #[trigger] mk[i] == (mm[i].0, mm[i].1 * k),
    ensures
        mexp(mk, v) == k * mexp(mm, v),
    decreases mm.len(),
{
    if mm.len() > 0 {
        lemma_mexp_scale(mm.drop_last(), mk.drop_last(), k, v);
        let a = mexp(mm.drop_last(), v);
        let e = if mm.last().0 == v { mm.last().1 } else { 0 };
        assert(mk.last() == (mm.last().0, mm.last().1 * k));
        let f = if mk.last().0 == v { mk.last().1 } else { 0 };
        assert(mexp(mk, v) == mexp(mk.drop_last(), v) + f);
        assert(mexp(mm, v) == a + e);
        assert(f == e * k);
        assert(k * a + e * k == k * (a + e)) by (nonlinear_arith);
        assert(mexp(mk.drop_last(), v) == k * a);
        assert(mexp(mk, v) == k * mexp(mm, v));
    } else {
        assert(k * 0 == 0) by (nonlinear_arith);
    }
}

#[verifier::spinoff_prover]
proof fn lemma_mexp_ge(m: MonoV, i: int)
    requires
        0 <= i < m.len(),
    ensures
        mexp(m, m[i].0) >= m[i].1,
    decreases m.len(),
{
    if i < m.len() - 1 {
        lemma_mexp_ge(m.drop_last(), i);
    }
}

/// A good monomial with every exponent multiplied by `k >= 1`; `None`
/// when an exponent would pass `usize::MAX`.
#[verifier::spinoff_prover]
fn mono_scale(m: &Vec<(Var, usize)>, k: usize) -> (r: Option<Vec<(Var, usize)>>)
    requires
        good(m@),
        k >= 1,
    ensures
        r matches Some(out) ==> good(out@) && forall|v: VarV| #[trigger] mexp(mview(out@), v) == k * mexp(mview(m@), v),
        r is None ==> exists|v: VarV| #[trigger] mexp(mview(m@), v) * k > usize::MAX,
{
    let mut out: Vec<(Var, usize)> = Vec::new();
    let mut i: usize = 0;
    while i < m.len()
        invariant
            i <= m@.len(),
            k >= 1,
            good(m@),
            out@.len() == i,
            forall|t: int| 0 <= t < i ==> #[trigger] out@[t].0@ == m@[t].0@ && out@[t].1 == m@[t].1 * k,
        decreases m@.len() - i,
    {
        let e = m[i].1;
        match e.checked_mul(k) {
            Some(ek) => {
                let ghost ob = out@;
                out.push((m[i].0.clone(), ek));
                proof {
                    assert forall|t: int| 0 <= t < i + 1 implies #[trigger] out@[t].0@ == m@[t].0@ && out@[t].1 == m@[t].1 * k by {
                        if t < i {
                            assert(out@[t] == ob[t]);
                        }
                    }
                }
            },
            None => {
                proof {
                    lemma_mexp_ge(mview(m@), i as int);
                    let v = m@[i as int].0@;
                    assert(mview(m@)[i as int] == (v, e as nat));
                    assert(mexp(mview(m@), v) * k >= (e as nat) * k) by (nonlinear_arith)
                        requires
                            mexp(mview(m@), v) >= e,
                    ;
                }
                return None;
            },
        }
        i = i + 1;
    }
    proof {
        assert forall|v: VarV| #[trigger] mexp(mview(out@), v) == k * mexp(mview(m@), v) by {
            assert forall|t: int| 0 <= t < mview(m@).len() implies #[trigger] mview(out@)[t] == (mview(m@)[t].0, mview(m@)[t].1 * (k as nat)) by {
                assert(out@[t].0@ == m@[t].0@);
            }
            lemma_mexp_scale(mview(m@), mview(out@), k as nat, v);
        }
        assert(good(out@)) by {
            assert forall|x: int, y: int| 0 <= x < y < out@.len() implies out@[x].0@ != out@[y].0@ by {
                assert(out@[x].0@ == m@[x].0@);
                assert(out@[y].0@ == m@[y].0@);
            }
            assert forall|x: int| 0 <= x < out@.len() implies #[trigger] out@[x].1 >= 1 by {
                assert(out@[x].0@ == m@[x].0@);
                assert(m@[x].1 >= 1);
                assert(out@[x].1 == m@[x].1 * k);
                assert(m@[x].1 * k >= 1) by (nonlinear_arith)
                    requires
                        m@[x].1 >= 1,
                        k >= 1,
                ;
            }
        }
    }
    Some(out)
}

/// The `k`-fold product of the held terms `x`.
#[verifier::spinoff_prover]
fn pow_held(x: &Vec<(Vec<(Var, usize)>, Fe)>, xs: Ghost<Seq<TermV>>, k: usize) -> (r: Option<Vec<(Vec<(Var, usize)>, Fe)>>)
    requires
        represents(x@, xs@),
        xs@.len() >= 1,
    ensures
        r matches Some(z) ==> represents(z@, tpow(xs@, k as nat)),
        r is None ==> !fits(tpow(xs@, k as nat)),
{
    let ghost xv = xs@;
    if k == 0 {
        return Some(unit_held());
    }
    if x.len() == 1 {
        proof {
            assert(good(x@[0].0@));
        }
        let m = match mono_scale(&x[0].0, k) {
            Some(m) => m,
            None => {
                proof {
                    let v = choose|v: VarV| #[trigger] mexp(mview(x@[0].0@), v) * k > usize::MAX;
                    assert(same_mono(mview(x@[0].0@), xv[0].0));
                    assert(mexp(mview(x@[0].0@), v) == mexp(xv[0].0, v));
                    lemma_tpow_single(xv, k as nat, v);
                    assert(mexp(tpow(xv, k as nat)[0].0, v) > usize::MAX) by (nonlinear_arith)
                        requires
                            mexp(tpow(xv, k as nat)[0].0, v) == k * mexp(xv[0].0, v),
                            mexp(xv[0].0, v) * k > usize::MAX,
                    ;
                }
                return None;
            },
        };
        let c = fe_pow(&x[0].1, k);
        let mut out: Vec<(Vec<(Var, usize)>, Fe)> = Vec::new();
        out.push((m, c));
        proof {
            assert(x@[0].1.val() == xv[0].1);
            assert forall|v: VarV| #[trigger] mexp(mview(out@[0].0@), v) == mexp(tpow(xv, k as nat)[0].0, v) by {
                lemma_tpow_single(xv, k as nat, v);
                assert(mexp(mview(x@[0].0@), v) == mexp(xv[0].0, v));
            }
            let v0: VarV = vstd::pervasive::arbitrary();
            lemma_tpow_single(xv, k as nat, v0);
        }
        return Some(out);
    }
    let mut acc = unit_held();
    let mut t: usize = 0;
    while t < k
        invariant
            t <= k,
            xv == xs@,
            xv.len() >= 1,
            represents(x@, xv),
            represents(acc@, tpow(xv, t as nat)),
        decreases k - t,
    {
        match prod_held(&acc, x, Ghost(tpow(xv, t as nat)), Ghost(xv)) {
            Some(z) => {
                acc = z;
            },
            None => {
                proof {
                    assert(tpow(xv, (t + 1) as nat) == tprod(tpow(xv, t as nat), xv));
                    if fits(tpow(xv, k as nat)) {
                        lemma_fits_tpow(xv, (t + 1) as nat, k as nat);
                    }
                }
                return None;
            },
        }
        t = t + 1;
    }
    Some(acc)
}

/// The held terms with every coefficient negated.
#[verifier::spinoff_prover]
fn neg_held(x: Vec<(Vec<(Var, usize)>, Fe)>, xs: Ghost<Seq<TermV>>) -> (r: Vec<(Vec<(Var, usize)>, Fe)>)
    requires
        represents(x@, xs@),
    ensures
        represents(r@, tneg(xs@)),
{
    let mut out: Vec<(Vec<(Var, usize)>, Fe)> = Vec::new();
    let mut x = x;
    let ghost xv = x@;
    let mut i: usize = 0;
    let n = x.len();
    while i < n
        invariant
            n == xv.len(),
            i <= n,
            x@.len() == n - i,
            forall|t: int| 0 <= t < x@.len() ==> #[trigger] x@[t] == xv[t + i],
            represents(xv, xs@),
            represents(out@, tneg(xs@).take(i as int)),
        decreases n - i,
    {
        let (m, c) = x.remove(0);
        proof {
            assert((m, c) == xv[i as int]);
        }
        let ghost ob = out@;
        out.push((m, c.neg()));
        proof {
            assert(tneg(xs@).take(i + 1) =~= tneg(xs@).take(i as int).push(tneg(xs@)[i as int]));
            assert forall|t: int| 0 <= t < x@.len() implies #[trigger] x@[t] == xv[t + i + 1] by {}
            let tg = tneg(xs@).take(i + 1);
            assert forall|t: int| 0 <= t < out@.len() implies #[trigger] good(out@[t].0@) by {
                if t < ob.len() {
                    assert(out@[t] == ob[t]);
                } else {
                    assert(good(xv[i as int].0@));
                }
            }
            assert forall|t: int| 0 <= t < out@.len() implies same_mono(mview(#[trigger] out@[t].0@), tg[t].0) by {
                if t < ob.len() {
                    assert(out@[t] == ob[t]);
                    assert(same_mono(mview(ob[t].0@), tneg(xs@).take(i as int)[t].0));
                } else {
                    assert(same_mono(mview(xv[i as int].0@), xs@[i as int].0));
                }
            }
            assert forall|t: int| 0 <= t < out@.len() implies (#[trigger] out@[t]).1.val() == tg[t].1 by {
                if t < ob.len() {
                    assert(out@[t] == ob[t]);
                    assert(ob[t].1.val() == tneg(xs@).take(i as int)[t].1);
                } else {
                    assert(xv[i as int].1.val() == xs@[i as int].1);
                }
            }
        }
        i = i + 1;
    }
    proof {
        assert(tneg(xs@).take(n as int) =~= tneg(xs@));
    }
    out
}

/// The held terms of `x` followed by those of `y`.
#[verifier::spinoff_prover]
fn concat_held(x: Vec<(Vec<(Var, usize)>, Fe)>, y: Vec<(Vec<(Var, usize)>, Fe)>, xs: Ghost<Seq<TermV>>, ys: Ghost<Seq<TermV>>)
    -> (r: Vec<(Vec<(Var, usize)>, Fe)>)
    requires
        represents(x@, xs@),
        represents(y@, ys@),
        x@.len() + y@.len() <= usize::MAX,
    ensures
        represents(r@, xs@ + ys@),
{
    let mut x = x;
    let mut y = y;
    let ghost xv = x@;
    let ghost yv = y@;
    x.append(&mut y);
    proof {
        assert(x@ =~= xv + yv);
        let z = xs@ + ys@;
        assert forall|t: int| 0 <= t < x@.len() implies #[trigger] good(x@[t].0@) by {
            if t < xv.len() {
                assert(x@[t] == xv[t]);
            } else {
                assert(x@[t] == yv[t - xv.len()]);
            }
        }
        assert forall|t: int| 0 <= t < x@.len() implies same_mono(mview(#[trigger] x@[t].0@), z[t].0) by {
            if t < xv.len() {
                assert(x@[t] == xv[t]);
            } else {
                assert(x@[t] == yv[t - xv.len()]);
            }
        }
        assert forall|t: int| 0 <= t < x@.len() implies (#[trigger] x@[t]).1.val() == z[t].1 by {
            if t < xv.len() {
                assert(x@[t] == xv[t]);
            } else {
                assert(x@[t] == yv[t - xv.len()]);
            }
        }
    }
    x
}


/// The terms of `p` multiplied out; `None` exactly when they do not fit.
#[verifier::spinoff_prover]
fn expand(p: &Polynomial) -> (r: Option<Vec<(Vec<(Var, usize)>, Fe)>>)
    ensures
        r matches Some(z) ==> represents(z@, terms(p@)),
        r is None ==> !fits(terms(p@)),
    decreases p,
{
    proof {
        lemma_terms_nonempty(p@);
        if fits(terms(p@)) {
            lemma_fits_sub(p@);
        }
    }
    match p {
        Polynomial::Lit(c) => {
            let mut r: Vec<(Vec<(Var, usize)>, Fe)> = Vec::new();
            r.push((Vec::new(), *c));
            proof {
                assert(mview(r@[0].0@) =~= Seq::<(VarV, nat)>::empty());
                lemma_small_mod(c.val(), modulus());
            }
            Some(r)
        },
        Polynomial::Var(v) => {
            let mut m: Vec<(Var, usize)> = Vec::new();
            m.push((v.clone(), 1));
            let mut r: Vec<(Vec<(Var, usize)>, Fe)> = Vec::new();
            r.push((m, Fe::one()));
            proof {
                assert(mview(r@[0].0@) =~= seq![(v@, 1nat)]);
            }
            Some(r)
        },
        Polynomial::Add(a, b) | Polynomial::Sub(a, b) => {
            let (x, y): (&Polynomial, &Polynomial) = (a, b);
            let ex = match expand(x) {
                Some(z) => z,
                None => {
                    return None;
                },
            };
            let ey = match expand(y) {
                Some(z) => z,
                None => {
                    proof {
                        lemma_fits_tneg(terms(y@));
                    }
                    return None;
                },
            };
            if ex.len() > usize::MAX - ey.len() {
                proof {
                    assert(terms(p@).len() == ex@.len() + ey@.len());
                }
                return None;
            }
            let ey2 = match p {
                Polynomial::Sub(_, _) => neg_held(ey, Ghost(terms(y@))),
                _ => ey,
            };
            let ghost ty = match p@ {
                PolyV::Sub(_, _) => tneg(terms(y@)),
                _ => terms(y@),
            };
            Some(concat_held(ex, ey2, Ghost(terms(x@)), Ghost(ty)))
        },
        Polynomial::Mul(a, b) => {
            let (x, y): (&Polynomial, &Polynomial) = (a, b);
            let ex = match expand(x) {
                Some(z) => z,
                None => {
                    return None;
                },
            };
            let ey = match expand(y) {
                Some(z) => z,
                None => {
                    return None;
                },
            };
            prod_held(&ex, &ey, Ghost(terms(x@)), Ghost(terms(y@)))
        },
        Polynomial::Neg(a) => {
            let x: &Polynomial = a;
            match expand(x) {
                Some(z) => Some(neg_held(z, Ghost(terms(x@)))),
                None => {
                    proof {
                        lemma_fits_tneg(terms(x@));
                    }
                    None
                },
            }
        },
        Polynomial::Pow(a, k) => {
            let x: &Polynomial = a;
            if *k == 0 {
                return Some(unit_held());
            }
            let ex = match expand(x) {
                Some(z) => z,
                None => {
                    return None;
                },
            };
            proof {
                lemma_terms_nonempty(x@);
            }
            pow_held(&ex, Ghost(terms(x@)), *k)
        },
    }
}

/// Whether a polynomial is, in canonical form, a constant.
pub enum Constancy {
    /// The constant it is.
    Constant(Fe),
    /// Some non-constant monomial keeps a nonzero coefficient.
    NotConstant,
    /// Multiplied out, it has more than `usize::MAX` terms or an exponent
    /// above `usize::MAX`.
    TooLarge,
}

/// Multiply `p` out, collect like terms, and tell whether only a constant
/// is left, and which.
#[verifier::spinoff_prover]
pub fn constancy(p: &Polynomial) -> (r: Constancy)
    ensures
        r is TooLarge <==> !fits(terms(p@)),
        r matches Constancy::Constant(c) ==> formally_const(p@, c.val()),
        r is NotConstant ==> forall|c: nat| !formally_const(p@, c),
{
    let xs = match expand(p) {
        Some(z) => z,
        None => {
            return Constancy::TooLarge;
        },
    };
    let ghost ts = terms(p@);
    proof {
        assert(fits(ts)) by {
            assert(xs@.len() <= usize::MAX);
            assert forall|i: int, v: VarV| 0 <= i < ts.len() implies #[trigger] mexp(ts[i].0, v) <= usize::MAX by {
                assert(same_mono(mview(xs@[i].0@), ts[i].0));
                assert(good(xs@[i].0@));
                lemma_mexp_good(xs@[i].0@, v);
                if exists|k: int| 0 <= k < xs@[i].0@.len() && xs@[i].0@[k].0@ == v {
                    let k = choose|k: int| 0 <= k < xs@[i].0@.len() && xs@[i].0@[k].0@ == v;
                }
            }
        }
    }
    let n = xs.len();
    let mut i: usize = 0;
    while i < n
        invariant
            n == xs@.len(),
            i <= n,
            represents(xs@, ts),
            ts == terms(p@),
            fits(ts),
            forall|a: int| 0 <= a < i && xs@[a].0@.len() > 0 ==> #[trigger] coef(ts, ts[a].0) % modulus() == 0,
        decreases n - i,
    {
        if xs[i].0.len() > 0 {
            let mut sum = Fe::zero();
            let mut j: usize = 0;
            proof {
                assert(ts.take(0) =~= Seq::<TermV>::empty());
                lemma_small_mod(0, modulus());
            }
            while j < n
                invariant
                    n == xs@.len(),
                    i < n,
                    j <= n,
                    represents(xs@, ts),
                    ts == terms(p@),
                    fits(ts),
                    sum.val() == coef(ts.take(j as int), ts[i as int].0) % modulus(),
                decreases n - j,
            {
                proof {
                    assert(good(xs@[j as int].0@));
                    assert(good(xs@[i as int].0@));
                }
                let eq = mono_eq(&xs[j].0, &xs[i].0);
                let ghost before = sum.val();
                proof {
                    assert(ts.take(j + 1).drop_last() =~= ts.take(j as int));
                    assert(ts.take(j + 1).last() == ts[j as int]);
                    assert(same_mono(mview(xs@[j as int].0@), ts[j as int].0));
                    assert(same_mono(mview(xs@[i as int].0@), ts[i as int].0));
                    assert(eq == same_mono(ts[j as int].0, ts[i as int].0)) by {
                        if eq {
                            assert forall|v: VarV| #[trigger] mexp(ts[j as int].0, v) == mexp(ts[i as int].0, v) by {
                                assert(mexp(mview(xs@[j as int].0@), v) == mexp(mview(xs@[i as int].0@), v));
                            }
                        } else {
                            let v = choose|v: VarV| mexp(mview(xs@[j as int].0@), v) != mexp(mview(xs@[i as int].0@), v);
                            assert(mexp(ts[j as int].0, v) != mexp(ts[i as int].0, v));
                        }
                    }
                }
                if eq {
                    sum = sum.add(&xs[j].1);
                    proof {
                        lemma_add_mod_noop(coef(ts.take(j as int), ts[i as int].0) as int, ts[j as int].1 as int, modulus() as int);
                        lemma_small_mod(ts[j as int].1, modulus());
                    }
                }
                j = j + 1;
            }
            proof {
                assert(ts.take(n as int) =~= ts);
            }
            if !sum.is_zero() {
                proof {
                    assert forall|c: nat| !formally_const(p@, c) by {
                        let m = ts[i as int].0;
                        assert(same_mono(mview(xs@[i as int].0@), m));
                        let e0 = xs@[i as int].0@[0];
                        lemma_mexp_ge(mview(xs@[i as int].0@), 0);
                        assert(mview(xs@[i as int].0@)[0] == (e0.0@, e0.1 as nat));
                        assert(good(xs@[i as int].0@));
                        assert(xs@[i as int].0@[0].1 >= 1);
                        assert(mexp(mview(xs@[i as int].0@), e0.0@) == mexp(m, e0.0@));
                        assert(mexp(m, e0.0@) >= 1);
                        assert(!is_unit(m));
                        assert(coef(ts, m) % modulus() != 0);
                    }
                }
                return Constancy::NotConstant;
            }
        }
        i = i + 1;
    }
    let mut c = Fe::zero();
    let mut j: usize = 0;
    proof {
        assert(ts.take(0) =~= Seq::<TermV>::empty());
        lemma_small_mod(0, modulus());
    }
    while j < n
        invariant
            n == xs@.len(),
            j <= n,
            represents(xs@, ts),
            ts == terms(p@),
            fits(ts),
            c.val() == coef(ts.take(j as int), Seq::empty()) % modulus(),
        decreases n - j,
    {
        proof {
            assert(ts.take(j + 1).drop_last() =~= ts.take(j as int));
            assert(ts.take(j + 1).last() == ts[j as int]);
            assert(same_mono(mview(xs@[j as int].0@), ts[j as int].0));
            assert(good(xs@[j as int].0@));
        }
        if xs[j].0.len() == 0 {
            c = c.add(&xs[j].1);
            proof {
                assert(mview(xs@[j as int].0@) =~= Seq::<(VarV, nat)>::empty());
                assert(same_mono(ts[j as int].0, Seq::empty())) by {
                    assert forall|v: VarV| #[trigger] mexp(ts[j as int].0, v) == mexp(Seq::<(VarV, nat)>::empty(), v) by {
                        assert(mexp(mview(xs@[j as int].0@), v) == mexp(ts[j as int].0, v));
                    }
                }
                lemma_add_mod_noop(coef(ts.take(j as int), Seq::empty()) as int, ts[j as int].1 as int, modulus() as int);
                lemma_small_mod(ts[j as int].1, modulus());
            }
        } else {
            proof {
                let e0 = xs@[j as int].0@[0];
                lemma_mexp_ge(mview(xs@[j as int].0@), 0);
                assert(mview(xs@[j as int].0@)[0] == (e0.0@, e0.1 as nat));
                assert(xs@[j as int].0@[0].1 >= 1);
                assert(mexp(mview(xs@[j as int].0@), e0.0@) == mexp(ts[j as int].0, e0.0@));
                assert(mexp(ts[j as int].0, e0.0@) >= 1);
                assert(mexp(Seq::<(VarV, nat)>::empty(), e0.0@) == 0);
                assert(!same_mono(ts[j as int].0, Seq::empty()));
            }
        }
        j = j + 1;
    }
    proof {
        assert(ts.take(n as int) =~= ts);
        assert forall|m: MonoV| !is_unit(m) implies #[trigger] coef(ts, m) % modulus() == 0 by {
            if exists|a: int| 0 <= a < ts.len() && same_mono(ts[a].0, m) {
                let a = choose|a: int| 0 <= a < ts.len() && same_mono(ts[a].0, m);
                lemma_coef_same(ts, ts[a].0, m);
                assert(same_mono(mview(xs@[a].0@), ts[a].0));
                if xs@[a].0@.len() == 0 {
                    assert(mview(xs@[a].0@) =~= Seq::<(VarV, nat)>::empty());
                    assert forall|v: VarV| #[trigger] mexp(m, v) == 0 by {
                        assert(mexp(ts[a].0, v) == mexp(mview(xs@[a].0@), v));
                    }
                }
            } else {
                lemma_coef_absent(ts, m);
                lemma_small_mod(0, modulus());
            }
        }
    }
    Constancy::Constant(c)
}


/// The coefficient, reduced, that the held terms give the monomial of
/// their `i`-th term.
#[verifier::spinoff_prover]
fn held_coef(xs: &Vec<(Vec<(Var, usize)>, Fe)>, i: usize, ts: Ghost<Seq<TermV>>) -> (r: Fe)
    requires
        represents(xs@, ts@),
        i < xs@.len(),
    ensures
        r.val() == coef(ts@, ts@[i as int].0) % modulus(),
{
    let ghost ts = ts@;
    let n = xs.len();
    let mut sum = Fe::zero();
    let mut j: usize = 0;
    proof {
        assert(ts.take(0) =~= Seq::<TermV>::empty());
        lemma_small_mod(0, modulus());
    }
    while j < n
        invariant
            n == xs@.len(),
            i < n,
            j <= n,
            represents(xs@, ts),
            sum.val() == coef(ts.take(j as int), ts[i as int].0) % modulus(),
        decreases n - j,
    {
        proof {
            assert(good(xs@[j as int].0@));
            assert(good(xs@[i as int].0@));
        }
        let eq = mono_eq(&xs[j].0, &xs[i].0);
        proof {
            assert(ts.take(j + 1).drop_last() =~= ts.take(j as int));
            assert(ts.take(j + 1).last() == ts[j as int]);
            assert(same_mono(mview(xs@[j as int].0@), ts[j as int].0));
            assert(same_mono(mview(xs@[i as int].0@), ts[i as int].0));
            assert(eq == same_mono(ts[j as int].0, ts[i as int].0)) by {
                if eq {
                    assert forall|v: VarV| #[trigger] mexp(ts[j as int].0, v) == mexp(ts[i as int].0, v) by {
                        assert(mexp(mview(xs@[j as int].0@), v) == mexp(mview(xs@[i as int].0@), v));
                    }
                } else {
                    let v = choose|v: VarV| mexp(mview(xs@[j as int].0@), v) != mexp(mview(xs@[i as int].0@), v);
                    assert(mexp(ts[j as int].0, v) != mexp(ts[i as int].0, v));
                }
            }
        }
        if eq {
            sum = sum.add(&xs[j].1);
            proof {
                lemma_add_mod_noop(coef(ts.take(j as int), ts[i as int].0) as int, ts[j as int].1 as int, modulus() as int);
                lemma_small_mod(ts[j as int].1, modulus());
            }
        }
        j = j + 1;
    }
    proof {
        assert(ts.take(n as int) =~= ts);
    }
    sum
}

/// The monomial predicate may be called on every monomial and answers by
/// the monomial's content alone.
pub open spec fn decides_monomials<F: Fn(&Vec<(Var, usize)>) -> bool>(f: F) -> bool {
    &&& forall|m: &Vec<(Var, usize)>| #[trigger] call_requires(f, (m,))
    &&& forall|a: &Vec<(Var, usize)>, b: &Vec<(Var, usize)>, x: bool, y: bool|
        #![trigger call_ensures(f, (a,), x), call_ensures(f, (b,), y)]
        good(a@) && good(b@) && same_mono(mview(a@), mview(b@)) && call_ensures(f, (a,), x)
            && call_ensures(f, (b,), y) ==> x == y
}

/// The predicate answers `true` on a monomial equal to `m`.
pub open spec fn selects_monomial<F: Fn(&Vec<(Var, usize)>) -> bool>(f: F, m: MonoV) -> bool {
    exists|a: &Vec<(Var, usize)>| good(a@) && same_mono(mview(a@), m) && #[trigger] call_ensures(f, (a,), true)
}

/// `m` keeps a nonzero coefficient in the canonical form of `p`.
pub open spec fn live(p: PolyV, m: MonoV) -> bool {
    coef(terms(p), m) % modulus() != 0
}

/// Some monomial left in the canonical form of `p` is not selected, or `p`
/// is too large to multiply out.
pub open spec fn keeps_monomial<F: Fn(&Vec<(Var, usize)>) -> bool>(f: F, p: PolyV) -> bool {
    !fits(terms(p)) || exists|m: MonoV| live(p, m) && !selects_monomial(f, m)
}

/// Multiply `p` out, collect like terms, and tell whether some monomial
/// with a nonzero coefficient escapes the predicate.
#[verifier::spinoff_prover]
pub fn some_monomial_spared<F: Fn(&Vec<(Var, usize)>) -> bool>(f: &F, p: &Polynomial) -> (r: bool)
    requires
        decides_monomials(*f),
    ensures
        r == keeps_monomial(*f, p@),
{
    let xs = match expand(p) {
        Some(z) => z,
        None => {
            return true;
        },
    };
    let ghost ts = terms(p@);
    let n = xs.len();
    let mut i: usize = 0;
    while i < n
        invariant
            n == xs@.len(),
            i <= n,
            represents(xs@, ts),
            ts == terms(p@),
            decides_monomials(*f),
            forall|a: int| 0 <= a < i && #[trigger] live(p@, ts[a].0) ==> selects_monomial(*f, ts[a].0),
        decreases n - i,
    {
        let c = held_coef(&xs, i, Ghost(ts));
        if !c.is_zero() {
            let b = f(&xs[i].0);
            let ghost m = ts[i as int].0;
            proof {
                assert(good(xs@[i as int].0@));
                assert(same_mono(mview(xs@[i as int].0@), m));
            }
            if !b {
                proof {
                    assert(live(p@, m));
                    if selects_monomial(*f, m) {
                        let a = choose|a: &Vec<(Var, usize)>| good(a@) && same_mono(mview(a@), m) && #[trigger] call_ensures(*f, (a,), true);
                        assert(same_mono(mview(a@), mview(xs@[i as int].0@))) by {
                            assert forall|v: VarV| #[trigger] mexp(mview(a@), v) == mexp(mview(xs@[i as int].0@), v) by {
                                assert(mexp(mview(a@), v) == mexp(m, v));
                                assert(mexp(mview(xs@[i as int].0@), v) == mexp(m, v));
                            }
                        }
                        assert(call_ensures(*f, (a,), true) && call_ensures(*f, (&xs@[i as int].0,), b));
                    }
                }
                return true;
            }
            proof {
                assert(call_ensures(*f, (&xs@[i as int].0,), true));
                assert(selects_monomial(*f, m));
            }
        }
        i = i + 1;
    }
    proof {
        assert(fits(ts)) by {
            assert forall|a: int, v: VarV| 0 <= a < ts.len() implies #[trigger] mexp(ts[a].0, v) <= usize::MAX by {
                assert(same_mono(mview(xs@[a].0@), ts[a].0));
                assert(good(xs@[a].0@));
                lemma_mexp_good(xs@[a].0@, v);
                if exists|k: int| 0 <= k < xs@[a].0@.len() && xs@[a].0@[k].0@ == v {
                    let k = choose|k: int| 0 <= k < xs@[a].0@.len() && xs@[a].0@[k].0@ == v;
                }
            }
        }
        assert forall|m: MonoV| live(p@, m) implies selects_monomial(*f, m) by {
            if exists|a: int| 0 <= a < ts.len() && same_mono(ts[a].0, m) {
                let a = choose|a: int| 0 <= a < ts.len() && same_mono(ts[a].0, m);
                lemma_coef_same(ts, ts[a].0, m);
                assert(live(p@, ts[a].0));
                let w = choose|w: &Vec<(Var, usize)>| good(w@) && same_mono(mview(w@), ts[a].0) && #[trigger] call_ensures(*f, (w,), true);
                assert(same_mono(mview(w@), m)) by {
                    assert forall|v: VarV| #[trigger] mexp(mview(w@), v) == mexp(m, v) by {
                        assert(mexp(mview(w@), v) == mexp(ts[a].0, v));
                    }
                }
            } else {
                lemma_coef_absent(ts, m);
                lemma_small_mod(0, modulus());
            }
        }
    }
    false
}

// ------------------------------------------------ values of the expansion

/// The value of a monomial under `env`.
pub open spec fn mval(m: MonoV, env: Env) -> int
    decreases m.len(),
{
    if m.len() == 0 {
        1
    } else {
        mval(m.drop_last(), env) * pow(env(m.last().0) as int, m.last().1)
    }
}

/// The value of a list of terms under `env`, before reduction.
pub open spec fn tsum(ts: Seq<TermV>, env: Env) -> int
    decreases ts.len(),
{
    if ts.len() == 0 {
        0
    } else {
        tsum(ts.drop_last(), env) + ts.last().1 * mval(ts.last().0, env)
    }
}

#[verifier::spinoff_prover]
proof fn lemma_mval_nonneg(m: MonoV, env: Env)
    ensures
        mval(m, env) >= 0,
    decreases m.len(),
{
    if m.len() > 0 {
        lemma_mval_nonneg(m.drop_last(), env);
        crate::poly::lemma_pow_nonneg(env(m.last().0) as int, m.last().1);
        let a = mval(m.drop_last(), env);
        let b = pow(env(m.last().0) as int, m.last().1);
        assert(a * b >= 0) by (nonlinear_arith)
            requires
                a >= 0,
                b >= 0,
        ;
    }
}

#[verifier::spinoff_prover]
proof fn lemma_mval_concat(a: MonoV, b: MonoV, env: Env)
    ensures
        mval(a + b, env) == mval(a, env) * mval(b, env),
    decreases b.len(),
{
    if b.len() == 0 {
        assert(a + b =~= a);
    } else {
        lemma_mval_concat(a, b.drop_last(), env);
        assert((a + b).drop_last() =~= a + b.drop_last());
        let x = mval(a, env);
        let y = mval(b.drop_last(), env);
        let z = pow(env(b.last().0) as int, b.last().1);
        assert((x * y) * z == x * (y * z)) by (nonlinear_arith);
    }
}

#[verifier::spinoff_prover]
proof fn lemma_tsum_concat(a: Seq<TermV>, b: Seq<TermV>, env: Env)
    ensures
        tsum(a + b, env) == tsum(a, env) + tsum(b, env),
    decreases b.len(),
{
    if b.len() == 0 {
        assert(a + b =~= a);
    } else {
        lemma_tsum_concat(a, b.drop_last(), env);
        assert((a + b).drop_last() =~= a + b.drop_last());
    }
}

#[verifier::spinoff_prover]
proof fn lemma_tsum_nonneg(ts: Seq<TermV>, env: Env)
    ensures
        tsum(ts, env) >= 0,
    decreases ts.len(),
{
    if ts.len() > 0 {
        lemma_tsum_nonneg(ts.drop_last(), env);
        lemma_mval_nonneg(ts.last().0, env);
        let c = ts.last().1;
        let v = mval(ts.last().0, env);
        assert(c * v >= 0) by (nonlinear_arith)
            requires
                v >= 0,
        ;
    }
}

/// Negating every coefficient negates the value, modulo the field order.
#[verifier::spinoff_prover]
proof fn lemma_tsum_neg(ts: Seq<TermV>, env: Env)
    requires
        forall|i: int| 0 <= i < ts.len() ==> #[trigger] ts[i].1 < modulus(),
    ensures
        (tsum(tneg(ts), env) + tsum(ts, env)) % (modulus() as int) == 0,
    decreases ts.len(),
{
    let md = modulus() as int;
    if ts.len() == 0 {
        assert(tneg(ts).len() == 0);
    } else {
        let t2 = ts.drop_last();
        assert forall|i: int| 0 <= i < t2.len() implies #[trigger] t2[i].1 < modulus() by {
            assert(t2[i] == ts[i]);
        }
        lemma_tsum_neg(t2, env);
        assert(tneg(ts).drop_last() =~= tneg(t2));
        let c = ts.last().1 as int;
        assert(c < md);
        let nc = ((modulus() - ts.last().1) as nat) % modulus();
        let v = mval(ts.last().0, env);
        let a = tsum(tneg(t2), env) + tsum(t2, env);
        assert((nc + c) % md == 0) by {
            if c == 0 {
                lemma_mod_self_0(md);
            } else {
                lemma_small_mod((md - c) as nat, md as nat);
            }
        }
        let q = (nc + c) / md;
        lemma_fundamental_div_mod(nc + c, md);
        let qa = a / md;
        lemma_fundamental_div_mod(a, md);
        assert(a + nc * v + c * v == md * (qa + q * v)) by (nonlinear_arith)
            requires
                a == md * qa + 0,
                nc + c == md * q + 0,
        ;
        lemma_mod_multiples_basic(qa + q * v, md);
        assert((qa + q * v) * md == md * (qa + q * v)) by (nonlinear_arith);
    }
}

/// One row of a product: `t` times every term of `y`.
#[verifier::spinoff_prover]
proof fn lemma_tsum_row(t: TermV, y: Seq<TermV>, env: Env)
    ensures
        tsum(y.map_values(|u: TermV| tmul(t, u)), env) % (modulus() as int)
            == (t.1 * mval(t.0, env) * tsum(y, env)) % (modulus() as int),
    decreases y.len(),
{
    let md = modulus() as int;
    let row = y.map_values(|u: TermV| tmul(t, u));
    if y.len() == 0 {
        assert(row.len() == 0);
        assert(t.1 * mval(t.0, env) * 0 == 0) by (nonlinear_arith);
    } else {
        let y2 = y.drop_last();
        lemma_tsum_row(t, y2, env);
        assert(row.drop_last() =~= y2.map_values(|u: TermV| tmul(t, u)));
        let u = y.last();
        assert(row.last() == tmul(t, u));
        lemma_mval_concat(t.0, u.0, env);
        let a = tsum(row.drop_last(), env);
        let ca = t.1 * mval(t.0, env);
        let s2 = tsum(y2, env);
        let cm = (t.1 * u.1) % modulus();
        let mv = mval(t.0, env) * mval(u.0, env);
        // a ≡ ca * s2, cm * mv ≡ ca * u.1 * mval(u)
        lemma_mul_mod_noop_left((t.1 * u.1) as int, mv, md);
        assert((t.1 * u.1) * mv == ca * (u.1 * mval(u.0, env))) by (nonlinear_arith)
            requires
                ca == t.1 * mval(t.0, env),
                mv == mval(t.0, env) * mval(u.0, env),
        ;
        assert(ca * (s2 + u.1 * mval(u.0, env)) == ca * s2 + ca * (u.1 * mval(u.0, env))) by (nonlinear_arith);
        lemma_add_mod_noop(a, cm * mv, md);
        lemma_add_mod_noop(ca * s2, ca * (u.1 * mval(u.0, env)), md);
        assert(mval(t.0 + u.0, env) == mv);
    }
}

/// The value of a product's terms is the product of the values.
#[verifier::spinoff_prover]
proof fn lemma_tsum_prod(x: Seq<TermV>, y: Seq<TermV>, env: Env)
    ensures
        tsum(tprod(x, y), env) % (modulus() as int) == (tsum(x, env) * tsum(y, env)) % (modulus() as int),
    decreases x.len(),
{
    let md = modulus() as int;
    if x.len() == 0 {
        assert(0 * tsum(y, env) == 0) by (nonlinear_arith);
    } else {
        let x2 = x.drop_last();
        let t = x.last();
        lemma_tsum_prod(x2, y, env);
        let row = y.map_values(|u: TermV| tmul(t, u));
        lemma_tsum_concat(tprod(x2, y), row, env);
        lemma_tsum_row(t, y, env);
        let a = tsum(tprod(x2, y), env);
        let b = tsum(row, env);
        let sy = tsum(y, env);
        let sx2 = tsum(x2, env);
        lemma_add_mod_noop(a, b, md);
        lemma_add_mod_noop(sx2 * sy, t.1 * mval(t.0, env) * sy, md);
        assert(sx2 * sy + t.1 * mval(t.0, env) * sy == (sx2 + t.1 * mval(t.0, env)) * sy) by (nonlinear_arith);
    }
}

#[verifier::spinoff_prover]
proof fn lemma_tsum_pow(x: Seq<TermV>, k: nat, env: Env)
    ensures
        tsum(tpow(x, k), env) % (modulus() as int) == pow(tsum(x, env), k) % (modulus() as int),
    decreases k,
{
    let md = modulus() as int;
    if k == 0 {
        vstd::arithmetic::power::lemma_pow0(tsum(x, env));
        let u = unit_terms();
        assert(u.drop_last() =~= Seq::<TermV>::empty());
        assert(u.last().0 =~= Seq::<(VarV, nat)>::empty());
        assert(mval(u.last().0, env) == 1);
        assert(tsum(Seq::<TermV>::empty(), env) == 0);
        assert(tsum(u.drop_last(), env) == 0);
        assert(u.last().1 == 1);
        assert(tsum(u, env) == tsum(u.drop_last(), env) + u.last().1 * mval(u.last().0, env));
        assert(tsum(u, env) == 1);
    } else {
        let a = tpow(x, (k - 1) as nat);
        lemma_tsum_pow(x, (k - 1) as nat, env);
        lemma_tsum_prod(a, x, env);
        let sa = tsum(a, env);
        let sx = tsum(x, env);
        let p1 = pow(sx, (k - 1) as nat);
        lemma_mul_mod_noop_left(sa, sx, md);
        lemma_mul_mod_noop_left(p1, sx, md);
        vstd::arithmetic::power::lemma_pow_adds(sx, (k - 1) as nat, 1);
        vstd::arithmetic::power::lemma_pow1(sx);
        assert(pow(sx, k) == p1 * sx);
        assert(tsum(tpow(x, k), env) % md == (sa * sx) % md);
        assert((sa * sx) % md == ((sa % md) * sx) % md);
        assert((p1 * sx) % md == ((p1 % md) * sx) % md);
    }
}

/// The value of a polynomial is the value of its multiplied-out terms.
#[verifier::spinoff_prover]
pub proof fn lemma_eval_terms(p: PolyV, env: Env)
    ensures
        eval(p, env) as int == tsum(terms(p), env) % (modulus() as int),
    decreases p,
{
    let md = modulus() as int;
    lemma_terms_reduced(p);
    match p {
        PolyV::Lit(c) => {
            assert(tsum(terms(p), env) == (c % modulus()) * 1) by {
                let ts = terms(p);
                assert(ts.drop_last() =~= Seq::<TermV>::empty());
                assert(ts.last().0 =~= Seq::<(VarV, nat)>::empty());
                assert(mval(ts.last().0, env) == 1);
                assert(tsum(Seq::<TermV>::empty(), env) == 0);
                assert(tsum(ts.drop_last(), env) == 0);
                assert(tsum(ts, env) == tsum(ts.drop_last(), env) + ts.last().1 * mval(ts.last().0, env));
            }
            lemma_mod_twice(c as int, md);
            let cm = (c % modulus()) as int;
            assert(cm == (c as int) % md);
            assert(cm * 1 == cm);
            assert(tsum(terms(p), env) == cm);
            assert(cm % md == cm);
            assert(eval(p, env) == c % modulus());
            assert(eval(p, env) as int == cm);
            assert(eval(p, env) as int == tsum(terms(p), env) % (modulus() as int));
            assert(eval(p, env) as int == tsum(terms(p), env) % md);
        },
        PolyV::Var(v) => {
            let ts = terms(p);
            assert(ts.drop_last() =~= Seq::<TermV>::empty());
            let m = seq![(v, 1nat)];
            assert(m.drop_last() =~= Seq::<(VarV, nat)>::empty());
            assert(m.last() == (v, 1nat));
            vstd::arithmetic::power::lemma_pow1(env(v) as int);
            assert(mval(m.drop_last(), env) == 1);
            assert(mval(m, env) == env(v) as int);
            assert(ts.last() == (m, 1nat));
            assert(tsum(Seq::<TermV>::empty(), env) == 0);
            assert(tsum(ts.drop_last(), env) == 0);
            assert(tsum(ts, env) == tsum(ts.drop_last(), env) + ts.last().1 * mval(ts.last().0, env));
            assert(tsum(ts, env) == env(v) as int);
            assert(eval(p, env) as int == tsum(terms(p), env) % md);
        },
        PolyV::Add(a, b) => {
            lemma_eval_terms(*a, env);
            lemma_eval_terms(*b, env);
            lemma_tsum_concat(terms(*a), terms(*b), env);
            lemma_add_mod_noop(tsum(terms(*a), env), tsum(terms(*b), env), md);
            assert(eval(p, env) as int == tsum(terms(p), env) % md);
        },
        PolyV::Sub(a, b) => {
            lemma_eval_terms(*a, env);
            lemma_eval_terms(*b, env);
            lemma_terms_reduced(*b);
            lemma_tsum_concat(terms(*a), tneg(terms(*b)), env);
            lemma_tsum_neg(terms(*b), env);
            let sa = tsum(terms(*a), env);
            let sb = tsum(terms(*b), env);
            let sn = tsum(tneg(terms(*b)), env);
            let ea = eval(*a, env) as int;
            let eb = eval(*b, env) as int;
            // sa + sn ≡ sa - sb ≡ ea - eb
            lemma_fundamental_div_mod(sn + sb, md);
            crate::polyv::lemma_mod_diff(sa, sb, md);
            assert(sa + sn == (sa - sb) + md * ((sn + sb) / md)) by (nonlinear_arith)
                requires
                    sn + sb == md * ((sn + sb) / md) + (sn + sb) % md,
                    (sn + sb) % md == 0,
            ;
            lemma_mod_multiples_vanish((sn + sb) / md, sa - sb, md);
            assert((ea + md - eb) % md == (sa - sb) % md);
            assert(eval(p, env) as int == tsum(terms(p), env) % md);
        },
        PolyV::Mul(a, b) => {
            lemma_eval_terms(*a, env);
            lemma_eval_terms(*b, env);
            lemma_tsum_prod(terms(*a), terms(*b), env);
            lemma_mul_mod_noop(tsum(terms(*a), env), tsum(terms(*b), env), md);
            assert(eval(p, env) as int == tsum(terms(p), env) % md);
        },
        PolyV::Neg(a) => {
            lemma_eval_terms(*a, env);
            lemma_terms_reduced(*a);
            lemma_tsum_neg(terms(*a), env);
            let sa = tsum(terms(*a), env);
            let sn = tsum(tneg(terms(*a)), env);
            let ea = eval(*a, env) as int;
            lemma_fundamental_div_mod(sn + sa, md);
            crate::polyv::lemma_mod_diff(0, sa, md);
            assert(sn == (0 - sa) + md * ((sn + sa) / md)) by (nonlinear_arith)
                requires
                    sn + sa == md * ((sn + sa) / md) + (sn + sa) % md,
                    (sn + sa) % md == 0,
            ;
            lemma_mod_multiples_vanish((sn + sa) / md, 0 - sa, md);
            lemma_small_mod(0, md as nat);
            assert((0 + md - ea) % md == (0 - sa) % md);
            assert(eval(p, env) as int == tsum(terms(p), env) % md);
        },
        PolyV::Pow(a, k) => {
            lemma_eval_terms(*a, env);
            lemma_tsum_pow(terms(*a), k, env);
            lemma_tsum_nonneg(terms(*a), env);
            vstd::arithmetic::power::lemma_pow_mod_noop(tsum(terms(*a), env), k, md);
            crate::poly::lemma_pow_nonneg(eval(*a, env) as int, k);
            assert(eval(p, env) as int == tsum(terms(p), env) % md);
        },
    }
}

/// Every coefficient of the expansion is reduced.
#[verifier::spinoff_prover]
proof fn lemma_terms_reduced(p: PolyV)
    ensures
        forall|i: int| 0 <= i < terms(p).len() ==> #[trigger] terms(p)[i].1 < modulus(),
{
    assert forall|i: int| 0 <= i < terms(p).len() implies #[trigger] terms(p)[i].1 < modulus() by {
        lemma_terms_reduced_at(p, i);
    }
}

#[verifier::spinoff_prover]
proof fn lemma_terms_reduced_at(p: PolyV, i: int)
    requires
        0 <= i < terms(p).len(),
    ensures
        terms(p)[i].1 < modulus(),
    decreases p,
{
    match p {
        PolyV::Add(a, b) => {
            if i < terms(*a).len() {
                lemma_terms_reduced_at(*a, i);
            } else {
                lemma_terms_reduced_at(*b, i - terms(*a).len());
            }
        },
        PolyV::Sub(a, b) => {
            if i < terms(*a).len() {
                lemma_terms_reduced_at(*a, i);
            }
        },
        PolyV::Mul(a, b) => {
            lemma_tprod_index(terms(*a), terms(*b), i);
        },
        PolyV::Pow(a, k) => {
            if k > 0 {
                lemma_tprod_index(tpow(terms(*a), (k - 1) as nat), terms(*a), i);
            }
        },
        _ => {},
    }
}


/// `m` without the entries of `v`.
pub open spec fn drop_var(m: MonoV, v: VarV) -> MonoV
    decreases m.len(),
{
    if m.len() == 0 {
        m
    } else {
        let d = drop_var(m.drop_last(), v);
        if m.last().0 == v { d } else { d.push(m.last()) }
    }
}

#[verifier::spinoff_prover]
proof fn lemma_drop_var(m: MonoV, v: VarV, env: Env)
    ensures
        mval(m, env) == mval(drop_var(m, v), env) * pow(env(v) as int, mexp(m, v)),
        forall|w: VarV| #[trigger] mexp(drop_var(m, v), w) == if w == v { 0 } else { mexp(m, w) },
        drop_var(m, v).len() <= m.len(),
        m.len() > 0 && m.last().0 == v ==> drop_var(m, v).len() < m.len(),
    decreases m.len(),
{
    let ev = env(v) as int;
    if m.len() == 0 {
        vstd::arithmetic::power::lemma_pow0(ev);
    } else {
        let m2 = m.drop_last();
        let x = m.last();
        lemma_drop_var(m2, v, env);
        let d2 = drop_var(m2, v);
        let k2 = mexp(m2, v);
        if x.0 == v {
            vstd::arithmetic::power::lemma_pow_adds(ev, k2, x.1);
            let a = mval(d2, env);
            assert(a * pow(ev, k2) * pow(ev, x.1) == a * (pow(ev, k2) * pow(ev, x.1))) by (nonlinear_arith);
        } else {
            let d = d2.push(x);
            assert(d.drop_last() =~= d2);
            assert(d.last() == x);
            let a = mval(d2, env);
            let px = pow(env(x.0) as int, x.1);
            let pv = pow(ev, k2);
            assert(a * pv * px == a * px * pv) by (nonlinear_arith);
            assert forall|w: VarV| #[trigger] mexp(d, w) == if w == v { 0 } else { mexp(m, w) } by {
                assert(mexp(d2, w) == if w == v { 0 } else { mexp(m2, w) });
            }
        }
    }
}

#[verifier::spinoff_prover]
proof fn lemma_unit_mval(m: MonoV, env: Env)
    requires
        is_unit(m),
    ensures
        mval(m, env) == 1,
    decreases m.len(),
{
    if m.len() > 0 {
        let m2 = m.drop_last();
        assert(is_unit(m2)) by {
            assert forall|w: VarV| #[trigger] mexp(m2, w) == 0 by {
                assert(mexp(m, w) == 0);
            }
        }
        lemma_unit_mval(m2, env);
        lemma_mexp_ge(m, m.len() - 1);
        assert(mexp(m, m.last().0) == 0);
        vstd::arithmetic::power::lemma_pow0(env(m.last().0) as int);
    }
}

/// Monomials giving every variable the same exponent take the same value.
#[verifier::spinoff_prover]
pub proof fn lemma_same_mono_mval(a: MonoV, b: MonoV, env: Env)
    requires
        same_mono(a, b),
    ensures
        mval(a, env) == mval(b, env),
    decreases a.len(),
{
    if a.len() == 0 {
        assert(is_unit(b)) by {
            assert forall|w: VarV| #[trigger] mexp(b, w) == 0 by {
                assert(mexp(a, w) == 0);
            }
        }
        lemma_unit_mval(b, env);
    } else {
        let v = a.last().0;
        lemma_drop_var(a, v, env);
        lemma_drop_var(b, v, env);
        let da = drop_var(a, v);
        let db = drop_var(b, v);
        assert(same_mono(da, db)) by {
            assert forall|w: VarV| #[trigger] mexp(da, w) == mexp(db, w) by {
                assert(mexp(a, w) == mexp(b, w));
            }
        }
        lemma_same_mono_mval(da, db, env);
        assert(mexp(a, v) == mexp(b, v));
    }
}

/// The terms of `ts` whose monomial is (`inside`) or is not the same as `m`.
pub open spec fn part(ts: Seq<TermV>, m: MonoV, inside: bool) -> Seq<TermV>
    decreases ts.len(),
{
    if ts.len() == 0 {
        ts
    } else {
        let d = part(ts.drop_last(), m, inside);
        if same_mono(ts.last().0, m) == inside { d.push(ts.last()) } else { d }
    }
}

#[verifier::spinoff_prover]
proof fn lemma_part(ts: Seq<TermV>, m: MonoV, env: Env)
    ensures
        tsum(ts, env) == tsum(part(ts, m, true), env) + tsum(part(ts, m, false), env),
        tsum(part(ts, m, true), env) == coef(ts, m) * mval(m, env),
        forall|m2: MonoV| #[trigger] coef(part(ts, m, false), m2) == if same_mono(m2, m) { 0 } else { coef(ts, m2) },
        part(ts, m, false).len() <= ts.len(),
        ts.len() > 0 && same_mono(ts.last().0, m) ==> part(ts, m, false).len() < ts.len(),
    decreases ts.len(),
{
    if ts.len() == 0 {
        assert(0 * mval(m, env) == 0);
    } else {
        let t2 = ts.drop_last();
        let x = ts.last();
        lemma_part(t2, m, env);
        let pin = part(t2, m, true);
        let pout = part(t2, m, false);
        if same_mono(x.0, m) {
            assert(part(ts, m, true).drop_last() =~= pin);
            assert(part(ts, m, true).last() == x);
            lemma_same_mono_mval(x.0, m, env);
            let cc = coef(t2, m);
            assert(cc * mval(m, env) + x.1 * mval(m, env) == (cc + x.1) * mval(m, env)) by (nonlinear_arith);
            assert(coef(ts, m) == cc + x.1);
            assert(tsum(part(ts, m, true), env) == tsum(pin, env) + x.1 * mval(x.0, env));
            assert forall|m2: MonoV| #[trigger] coef(part(ts, m, false), m2) == if same_mono(m2, m) { 0 } else { coef(ts, m2) } by {
                assert(coef(pout, m2) == if same_mono(m2, m) { 0 } else { coef(t2, m2) });
                if !same_mono(m2, m) {
                    if same_mono(x.0, m2) {
                        assert forall|w: VarV| #[trigger] mexp(m2, w) == mexp(m, w) by {
                            assert(mexp(x.0, w) == mexp(m2, w));
                            assert(mexp(x.0, w) == mexp(m, w));
                        }
                    }
                }
            }
        } else {
            assert(part(ts, m, true) == pin);
            assert(coef(ts, m) == coef(t2, m));
            assert(part(ts, m, false).drop_last() =~= pout);
            assert(part(ts, m, false).last() == x);
            assert forall|m2: MonoV| #[trigger] coef(part(ts, m, false), m2) == if same_mono(m2, m) { 0 } else { coef(ts, m2) } by {
                assert(coef(pout, m2) == if same_mono(m2, m) { 0 } else { coef(t2, m2) });
                if same_mono(m2, m) {
                    if same_mono(x.0, m2) {
                        assert forall|w: VarV| #[trigger] mexp(x.0, w) == mexp(m, w) by {
                            assert(mexp(x.0, w) == mexp(m2, w));
                            assert(mexp(m2, w) == mexp(m, w));
                        }
                    }
                }
            }
        }
    }
}

/// Coefficients that cancel everywhere but at the constant monomial make
/// the terms worth that constant.
#[verifier::spinoff_prover]
proof fn lemma_collect(ts: Seq<TermV>, c: nat, env: Env)
    requires
        coef(ts, Seq::empty()) % modulus() == c % modulus(),
        forall|m: MonoV| !is_unit(m) ==> #[trigger] coef(ts, m) % modulus() == 0,
    ensures
        tsum(ts, env) % (modulus() as int) == (c % modulus()) as int,
    decreases ts.len(),
{
    let md = modulus() as int;
    if ts.len() == 0 {
        lemma_small_mod(0, modulus());
    } else {
        let m = ts.last().0;
        lemma_part(ts, m, env);
        let o = part(ts, m, false);
        let unit = Seq::<(VarV, nat)>::empty();
        let cm = coef(ts, m);
        let so = tsum(o, env);
        if is_unit(m) {
            lemma_unit_mval(m, env);
            assert(same_mono(m, unit)) by {
                assert forall|w: VarV| #[trigger] mexp(m, w) == mexp(unit, w) by {
                    assert(mexp(m, w) == 0);
                }
            }
            lemma_coef_same(ts, m, unit);
            assert(same_mono(unit, m)) by {
                assert forall|w: VarV| #[trigger] mexp(unit, w) == mexp(m, w) by {
                    assert(mexp(m, w) == 0);
                }
            }
            assert(coef(o, unit) == 0);
            lemma_small_mod(0, modulus());
            assert forall|m2: MonoV| !is_unit(m2) implies #[trigger] coef(o, m2) % modulus() == 0 by {
                if same_mono(m2, m) {
                    lemma_small_mod(0, modulus());
                } else {
                    assert(coef(ts, m2) % modulus() == 0);
                }
            }
            lemma_collect(o, 0, env);
            assert(cm * 1 == cm);
            lemma_add_mod_noop(cm as int, so, md);
            lemma_small_mod(0, modulus());
        } else {
            assert(cm % modulus() == 0);
            assert(!same_mono(unit, m)) by {
                let w = choose|w: VarV| mexp(m, w) != 0;
                assert(mexp(unit, w) == 0);
            }
            assert(coef(o, unit) == coef(ts, unit));
            assert forall|m2: MonoV| !is_unit(m2) implies #[trigger] coef(o, m2) % modulus() == 0 by {
                if same_mono(m2, m) {
                    lemma_small_mod(0, modulus());
                } else {
                    assert(coef(ts, m2) % modulus() == 0);
                }
            }
            lemma_collect(o, c, env);
            lemma_mval_nonneg(m, env);
            lemma_mul_mod_noop_left(cm as int, mval(m, env), md);
            lemma_add_mod_noop(cm * mval(m, env), so, md);
            assert((0 * mval(m, env)) % md == 0);
            lemma_mod_twice(c as int, md);
        }
    }
}

/// Law: a polynomial that is, in canonical form, the constant `c` takes
/// the value `c` under every assignment.
#[verifier::spinoff_prover]
pub proof fn lemma_formally_const_eval(p: PolyV, c: nat)
    requires
        formally_const(p, c),
    ensures
        forall|env: Env| #[trigger] eval(p, env) == c,
{
    assert forall|env: Env| #[trigger] eval(p, env) == c by {
        lemma_eval_terms(p, env);
        lemma_collect(terms(p), c, env);
        lemma_mod_twice(coef(terms(p), Seq::empty()) as int, modulus() as int);
        lemma_small_mod(c, modulus());
        lemma_mod_bound(coef(terms(p), Seq::empty()) as int, modulus() as int);
    }
}


/// `p` is, in canonical form, zero (its multiplied-out form fitting in
/// machine words).
pub open spec fn formally_zero(p: PolyV) -> bool {
    fits(terms(p)) && formally_const(p, 0)
}

/// The canonical form has one constant.
#[verifier::spinoff_prover]
pub proof fn lemma_formally_const_unique(p: PolyV, c1: nat, c2: nat)
    requires
        formally_const(p, c1),
        formally_const(p, c2),
    ensures
        c1 == c2,
{
}

} // verus!

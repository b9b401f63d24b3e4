//! Powers: constant exponents read from exponent operands.
use vstd::prelude::*;

use vstd::arithmetic::power::pow;

use crate::arith::{ew_enc, ew_ok, firsts, lemma_ew_extends, mul_op_inner, seconds, slice, tel, vec_target, zip_slots, SlotOp};
use crate::encode::{binds, encodes, lemma_binds_compose, lemma_encodes_nothing, link_to_polys, poly_vals, var_polys};
use crate::field::{limbs_value, modulus, Fe};
use crate::formal::{coef, constancy, fits, formally_const, lemma_formally_const_eval, terms, Constancy};
use crate::ideal::Ideal;
use crate::namespace::{gb_name, IdealBuilder};
use crate::poly::Polynomial;
use crate::poly_source::{op_typ, operand_ok, operand_polys, pviews, Operand, PolySource};
use crate::polyv::{eval, is_const, lit, poly_vars, Env, PolyV};
use crate::typ::{has_poly, has_poly_type, plen, ATyp, TypV};
use crate::var::{below, child, extends, index_ok, lemma_child_extends, lemma_slots_extend, slot_list, slots_ok, views, Qualifier, Ref, Var, VarV};

verus! {

broadcast use {crate::field::lemma_val_lt, crate::polyv::lemma_eval_lt};

/// The assignment sending every variable to zero.
pub open spec fn zero_env() -> Env {
    |v: VarV| 0nat
}

/// The constant term of the canonical form of `p`.
pub open spec fn formal_value(p: PolyV) -> nat {
    coef(terms(p), Seq::empty()) % modulus()
}

/// A single slot that is, in canonical form, a constant fitting in a
/// machine word (its multiplied-out form fitting in machine words too).
pub open spec fn const_exp(ps: Seq<PolyV>) -> bool {
    &&& ps.len() == 1
    &&& fits(terms(ps[0]))
    &&& formally_const(ps[0], formal_value(ps[0]))
    &&& formal_value(ps[0]) <= usize::MAX
}

/// The value of a constant exponent slot.
pub open spec fn exp_of(ps: Seq<PolyV>) -> nat {
    formal_value(ps[0])
}

/// The exponent `src` stands for, when it is a single slot that is, in
/// canonical form, a constant fitting in a `usize`; `None` for a dynamic
/// exponent.
pub fn resolve_const_exp(src: &PolySource) -> (r: Option<usize>)
    ensures
        r is Some <==> const_exp(src.pv()),
        r matches Some(k) ==> is_const(src.polys@[0]@, k as nat),
        r matches Some(k) ==> k as nat == exp_of(src.pv()),
{
    if src.polys.len() != 1 {
        return None;
    }
    let p = &src.polys[0];
    proof {
        assert(src.pv()[0] == p@);
    }
    let c = match constancy(p) {
        Constancy::Constant(c) => c,
        _ => {
            return None;
        },
    };
    let l = c.limbs();
    proof {
        lemma_formally_const_eval(p@, c.val());
        assert(formal_value(p@) == c.val());
    }
    if l[1] == 0 && l[2] == 0 && l[3] == 0 && (l[0] as u128) <= (usize::MAX as u128) {
        let k = l[0] as usize;
        proof {
            assert(limbs_value(l) == l[0] as nat);
            assert forall|env: Env| #[trigger] eval(p@, env) == (k as nat) % modulus() by {
                vstd::arithmetic::div_mod::lemma_small_mod(k as nat, modulus());
            }
        }
        Some(k)
    } else {
        proof {
            if l[1] == 0 && l[2] == 0 && l[3] == 0 {
                assert(limbs_value(l) == l[0] as nat);
            } else {
                assert(limbs_value(l) >= 0x1_0000_0000_0000_0000nat) by (nonlinear_arith)
                    requires
                        l[1] != 0 || l[2] != 0 || l[3] != 0,
                        limbs_value(l) == l[0] as nat + l[1] as nat * 0x1_0000_0000_0000_0000nat
                            + l[2] as nat * 0x1_0000_0000_0000_0000_0000_0000_0000_0000nat
                            + l[3] as nat * 0x1_0000_0000_0000_0000_0000_0000_0000_0000_0000_0000_0000_0000nat,
                ;
            }
        }
        None
    }
}


/// The shape of a product of polynomial-shaped `a` and `b`: degrees add
/// (`Uni`, `VPoly`), two multilinear factors of `n` variables give
/// `VPoly(n, 2n)`, a multilinear and a `VPoly(n, m)` factor give
/// `VPoly(n, m + n)`, and vectors of one length multiply element by
/// element. `None` for other pairs and for degrees past a machine word.
pub open spec fn mul_shape(a: TypV, b: TypV) -> Option<TypV>
    decreases a,
{
    match a {
        TypV::Uni(x) => match b {
            TypV::Uni(y) => if x + y <= usize::MAX { Some(TypV::Uni(x + y)) } else { None },
            _ => None,
        },
        TypV::Mle(n) => match b {
            TypV::Mle(n2) => if n == n2 && n + n <= usize::MAX { Some(TypV::VPoly(n, n + n)) } else { None },
            TypV::VPoly(n2, m) => if n == n2 && m + n <= usize::MAX { Some(TypV::VPoly(n, m + n)) } else { None },
            _ => None,
        },
        TypV::VPoly(n, x) => match b {
            TypV::Mle(n2) => if n == n2 && x + n <= usize::MAX { Some(TypV::VPoly(n, x + n)) } else { None },
            TypV::VPoly(n2, y) => if n == n2 && x + y <= usize::MAX { Some(TypV::VPoly(n, x + y)) } else { None },
            _ => None,
        },
        TypV::Vec(e, n) => match b {
            TypV::Vec(f, m) => if n == m {
                match mul_shape(*e, *f) {
                    Some(t) => Some(TypV::Vec(Box::new(t), n)),
                    None => None,
                }
            } else {
                None
            },
            _ => None,
        },
        _ => None,
    }
}

/// The shape of a product (see [`mul_shape`]).
pub fn mul_shape_of(a: &ATyp, b: &ATyp) -> (r: Option<ATyp>)
    ensures
        r is Some <==> mul_shape(a@, b@) is Some,
        r matches Some(t) ==> mul_shape(a@, b@) == Some(t@),
    decreases a,
{
    match (a, b) {
        (ATyp::Uni(x), ATyp::Uni(y)) => match x.checked_add(*y) {
            Some(d) => Some(ATyp::Uni(d)),
            None => None,
        },
        (ATyp::Mle(n), ATyp::Mle(n2)) => if *n == *n2 {
            match n.checked_add(*n) {
                Some(d) => Some(ATyp::VPoly(*n, d)),
                None => None,
            }
        } else {
            None
        },
        (ATyp::Mle(n), ATyp::VPoly(n2, m)) => if *n == *n2 {
            match m.checked_add(*n) {
                Some(d) => Some(ATyp::VPoly(*n, d)),
                None => None,
            }
        } else {
            None
        },
        (ATyp::VPoly(n, x), ATyp::Mle(n2)) => if *n == *n2 {
            match x.checked_add(*n) {
                Some(d) => Some(ATyp::VPoly(*n, d)),
                None => None,
            }
        } else {
            None
        },
        (ATyp::VPoly(n, x), ATyp::VPoly(n2, y)) => if *n == *n2 {
            match x.checked_add(*y) {
                Some(d) => Some(ATyp::VPoly(*n, d)),
                None => None,
            }
        } else {
            None
        },
        (ATyp::Vec(e, n), ATyp::Vec(f, m)) => if *n == *m {
            let ei: &ATyp = e;
            let fi: &ATyp = f;
            match mul_shape_of(ei, fi) {
                Some(t) => Some(ATyp::Vec(Box::new(t), *n)),
                None => None,
            }
        } else {
            None
        },
        _ => None,
    }
}

/// The shape of the `j`-th power of shape `tb` (`j >= 1`).
pub open spec fn pow_shape(tb: TypV, j: nat) -> Option<TypV>
    decreases j,
{
    if j <= 1 {
        Some(tb)
    } else {
        match pow_shape(tb, (j - 1) as nat) {
            Some(t) => mul_shape(t, tb),
            None => None,
        }
    }
}

proof fn lemma_pow_shape_prefix(tb: TypV, i: nat, j: nat)
    requires
        i <= j,
        pow_shape(tb, j) is Some,
    ensures
        pow_shape(tb, i) is Some,
    decreases j,
{
    if i < j {
        lemma_pow_shape_prefix(tb, i, (j - 1) as nat);
    }
}

/// Accumulator `q` of a power of a base of shape `tb`: the sentinel local
/// `q` steps below `s0`, named by the `pow_acc` counter from `c0`, holding
/// the base to the power `q + 2`.
pub open spec fn pow_acc(s0: nat, c0: nat, tb: TypV, q: nat) -> VarV {
    VarV {
        reference: Ref((s0 - q) as usize),
        index: Seq::empty(),
        typ: pow_shape(tb, q + 2)->0,
        qualifier: Qualifier::Local,
        name: gb_name("pow_acc"@, c0 + q),
    }
}

/// The running power before step `q`: the base itself, then the slots of
/// the previous accumulator.
pub open spec fn pow_operand(s0: nat, c0: nat, tb: TypV, pb: Seq<PolyV>, q: nat) -> Seq<PolyV> {
    if q == 0 {
        pb
    } else {
        var_polys(slot_list(pow_acc(s0, c0, tb, (q - 1) as nat)))
    }
}

/// Bindings of the first `i` accumulators: accumulator `q` is the running
/// power times the base.
pub open spec fn pow_enc(s0: nat, c0: nat, tb: TypV, pb: Seq<PolyV>, i: nat) -> Seq<(VarV, spec_fn(Env) -> int)>
    decreases i,
{
    if i == 0 {
        Seq::empty()
    } else {
        let q = (i - 1) as nat;
        pow_enc(s0, c0, tb, pb, q) + ew_enc(SlotOp::Mul, pow_acc(s0, c0, tb, q), pow_shape(tb, q + 1)->0, pow_operand(s0, c0, tb, pb, q), tb, pb)
    }
}

/// Values of raising each slot of `pb` to a constant `k` directly: the
/// constant one for `k == 0`, the slots themselves for `k == 1`.
pub open spec fn pow_direct_vals(pb: Seq<PolyV>, k: nat) -> Seq<spec_fn(Env) -> int> {
    if k == 0 {
        seq![|env: Env| 1int]
    } else {
        Seq::new(pb.len(), |j: int| (|env: Env| pow(eval(pb[j], env) as int, k)))
    }
}

/// What raising `(tb, pb)` to the constant `k` into `target` binds, and
/// the accumulators it introduces, in order: a polynomial-shaped base with
/// `k >= 2` goes through `k - 1` accumulators, any other base is raised
/// slot by slot.
pub open spec fn pow_const_run(s0: nat, c0: nat, target: VarV, tb: TypV, pb: Seq<PolyV>, k: nat) -> (Seq<(VarV, spec_fn(Env) -> int)>, Seq<VarV>) {
    if k >= 2 && has_poly(tb) {
        (
            pow_enc(s0, c0, tb, pb, (k - 1) as nat) + zip_slots(slot_list(target), poly_vals(pow_operand(s0, c0, tb, pb, (k - 1) as nat))),
            Seq::new((k - 1) as nat, |q: int| pow_acc(s0, c0, tb, q as nat)),
        )
    } else {
        (zip_slots(slot_list(target), pow_direct_vals(pb, k)), Seq::empty())
    }
}

/// What raising `(tb, pb)` to `k` into `target` needs: a target with one
/// slot per value, and for the accumulated form, shapes of every power up
/// to `k`, sentinels clear of the target, and every step encodable.
pub open spec fn pow_const_ok(s0: nat, c0: nat, target: VarV, tb: TypV, pb: Seq<PolyV>, k: nat) -> bool {
    &&& pb.len() == plen(tb)
    &&& slots_ok(target.typ)
    &&& k == 0 ==> slot_list(target).len() == 1
    &&& (k == 1 || (k >= 2 && !has_poly(tb))) ==> slot_list(target).len() == pb.len()
    &&& (k >= 2 && has_poly(tb)) ==> {
        &&& pow_shape(tb, k) is Some
        &&& target.reference.0 + (k - 1) <= s0
        &&& s0 <= usize::MAX
        &&& c0 + (k - 1) < usize::MAX
        &&& forall|q: nat| q < k - 1 ==> #[trigger] ew_ok(SlotOp::Mul, pow_acc(s0, c0, tb, q), pow_shape(tb, q + 1)->0, pow_operand(s0, c0, tb, pb, q), tb, pb)
        &&& forall|q: nat| q < k - 1 ==> slots_ok(#[trigger] pow_acc(s0, c0, tb, q).typ)
        &&& slot_list(target).len() == slot_list(pow_acc(s0, c0, tb, (k - 2) as nat)).len()
    }
}

/// A run took builder `b0` to `b1` and ideal `i0` to `i1`: its bindings
/// hold, its accumulators were introduced after the existing variables,
/// and the builder handed out one sentinel and one name under `key` for
/// each.
pub open spec fn keyed_done(key: Seq<char>, b0: IdealBuilder, b1: IdealBuilder, i0: Ideal, i1: Ideal, run: (Seq<(VarV, spec_fn(Env) -> int)>, Seq<VarV>)) -> bool {
    &&& binds(i0, i1, firsts(run.0), seconds(run.0))
    &&& views(i1.var_order@) == views(i0.var_order@) + run.1
    &&& b1.ns.wf()
    &&& b1.ns.next_sentinel() == b0.ns.next_sentinel() - run.1.len()
    &&& b1.ns.count(key) == b0.ns.count(key) + run.1.len()
    &&& forall|k: Seq<char>| k != key ==> #[trigger] b1.ns.count(k) == b0.ns.count(k)
    &&& b1.ns.witnesses() == b0.ns.witnesses()
    &&& b1.ns.inverses() == b0.ns.inverses()
}

/// [`keyed_done`] for powers, whose accumulators are named `pow_acc`.
pub open spec fn run_done(b0: IdealBuilder, b1: IdealBuilder, i0: Ideal, i1: Ideal, run: (Seq<(VarV, spec_fn(Env) -> int)>, Seq<VarV>)) -> bool {
    keyed_done("pow_acc"@, b0, b1, i0, i1, run)
}

/// Two runs in a row, binding disjoint slots, make one run.
pub proof fn lemma_keyed_compose(
    key: Seq<char>,
    b0: IdealBuilder,
    b1: IdealBuilder,
    b2: IdealBuilder,
    i0: Ideal,
    i1: Ideal,
    i2: Ideal,
    r1: (Seq<(VarV, spec_fn(Env) -> int)>, Seq<VarV>),
    r2: (Seq<(VarV, spec_fn(Env) -> int)>, Seq<VarV>),
)
    requires
        keyed_done(key, b0, b1, i0, i1, r1),
        keyed_done(key, b1, b2, i1, i2, r2),
        firsts(r1.0).disjoint(firsts(r2.0)),
    ensures
        keyed_done(key, b0, b2, i0, i2, (r1.0 + r2.0, r1.1 + r2.1)),
{
    lemma_binds_compose(i0, i1, i2, firsts(r1.0), seconds(r1.0), firsts(r2.0), seconds(r2.0));
    assert(firsts(r1.0 + r2.0) =~= firsts(r1.0) + firsts(r2.0));
    assert(seconds(r1.0 + r2.0) =~= seconds(r1.0) + seconds(r2.0));
    assert(views(i2.var_order@) =~= views(i0.var_order@) + (r1.1 + r2.1));
}

/// Every slot a run binds lies below `t` or is one of the sentinels in
/// `(s0 - used, s0]`, all above `t`'s node.
pub open spec fn run_ext(e: Seq<(VarV, spec_fn(Env) -> int)>, t: VarV, s0: nat, used: nat) -> bool {
    forall|j: int| 0 <= j < e.len() ==> {
        let w = #[trigger] e[j].0;
        extends(w, t) || (s0 - used < w.reference.0 <= s0 && t.reference.0 < w.reference.0)
    }
}

/// Every slot bound lies below one of the first `n` logical slots of `t`,
/// or is one of the sentinels in `(s0 - used, s0]`, all above `t`'s node.
pub open spec fn run_below(e: Seq<(VarV, spec_fn(Env) -> int)>, t: VarV, n: nat, s0: nat, used: nat) -> bool {
    forall|j: int| 0 <= j < e.len() ==> {
        let w = #[trigger] e[j].0;
        below(w, t, 0, n) || (s0 - used < w.reference.0 <= s0 && t.reference.0 < w.reference.0)
    }
}

/// Two runs in a row make one run.
proof fn lemma_run_compose(
    b0: IdealBuilder,
    b1: IdealBuilder,
    b2: IdealBuilder,
    i0: Ideal,
    i1: Ideal,
    i2: Ideal,
    r1: (Seq<(VarV, spec_fn(Env) -> int)>, Seq<VarV>),
    r2: (Seq<(VarV, spec_fn(Env) -> int)>, Seq<VarV>),
)
    requires
        run_done(b0, b1, i0, i1, r1),
        run_done(b1, b2, i1, i2, r2),
        firsts(r1.0).disjoint(firsts(r2.0)),
    ensures
        run_done(b0, b2, i0, i2, (r1.0 + r2.0, r1.1 + r2.1)),
{
    lemma_keyed_compose("pow_acc"@, b0, b1, b2, i0, i1, i2, r1, r2);
}

/// Appending the run of child `i` of `t` keeps the slots below the first
/// `i + 1` children or among the sentinels handed out so far.
proof fn lemma_child_step(
    prev: Seq<(VarV, spec_fn(Env) -> int)>,
    cur: Seq<(VarV, spec_fn(Env) -> int)>,
    t: VarV,
    i: nat,
    ct: TypV,
    s0: nat,
    u: nat,
    v: nat,
)
    requires
        run_below(prev, t, i, s0, u),
        run_ext(cur, child(t, i, ct), (s0 - u) as nat, v),
        u + v <= s0,
        i <= usize::MAX,
    ensures
        firsts(prev).disjoint(firsts(cur)),
        run_below(prev + cur, t, i + 1, s0, u + v),
{
    assert forall|j: int| 0 <= j < cur.len() implies {
        let w = #[trigger] cur[j].0;
        below(w, t, i, i + 1) || ((s0 - u) - v < w.reference.0 <= s0 - u && t.reference.0 < w.reference.0)
    } by {
        if extends(cur[j].0, child(t, i, ct)) {
            lemma_child_extends(cur[j].0, t, i, ct);
        }
    }
    assert forall|x: int, y: int| 0 <= x < firsts(prev).len() && 0 <= y < firsts(cur).len() implies firsts(prev)[x] != firsts(cur)[y] by {
        assert(firsts(prev)[x] == prev[x].0);
        assert(firsts(cur)[y] == cur[y].0);
    }
    assert forall|j: int| 0 <= j < (prev + cur).len() implies {
        let w = #[trigger] (prev + cur)[j].0;
        below(w, t, 0, i + 1) || (s0 - (u + v) < w.reference.0 <= s0 && t.reference.0 < w.reference.0)
    } by {
        if j < prev.len() {
            assert((prev + cur)[j] == prev[j]);
        } else {
            assert((prev + cur)[j] == cur[j - prev.len()]);
        }
    }
}

/// The polynomials standing for the slots of `v`.
fn slot_polys(v: &Var) -> (r: Vec<Polynomial>)
    requires
        slots_ok(v.typ@),
    ensures
        pviews(r@) == var_polys(slot_list(v@)),
{
    let slots = v.slots();
    let mut out: Vec<Polynomial> = Vec::new();
    let mut j: usize = 0;
    while j < slots.len()
        invariant
            j <= slots@.len(),
            views(slots@) == slot_list(v@),
            out@.len() == j,
            forall|t: int| 0 <= t < j ==> #[trigger] out@[t]@ == PolyV::Var(slots@[t]@),
        decreases slots@.len() - j,
    {
        out.push(Polynomial::var(&slots[j]));
        j = j + 1;
    }
    assert(pviews(out@) =~= var_polys(slot_list(v@))) by {
        assert forall|t: int| 0 <= t < out@.len() implies #[trigger] pviews(out@)[t] == var_polys(slot_list(v@))[t] by {
            assert(views(slots@)[t] == slots@[t]@);
        }
    }
    out
}

/// A copy of a list of polynomials.
fn copy_polys(ps: &Vec<Polynomial>) -> (r: Vec<Polynomial>)
    ensures
        pviews(r@) == pviews(ps@),
{
    let mut out: Vec<Polynomial> = Vec::new();
    let mut j: usize = 0;
    while j < ps.len()
        invariant
            j <= ps@.len(),
            out@.len() == j,
            forall|t: int| 0 <= t < j ==> #[trigger] out@[t]@ == ps@[t]@,
        decreases ps@.len() - j,
    {
        out.push(ps[j].clone());
        j = j + 1;
    }
    assert(pviews(out@) =~= pviews(ps@));
    out
}

/// Raise `base` to the constant `k` into `target`: `p^0 = 1` and
/// `p^1 = p` directly; a base without polynomial-shaped parts slot by
/// slot; otherwise through `k - 1` accumulators, each the product of the
/// previous one and the base.
pub fn pow_const(builder: &mut IdealBuilder, ideal: &mut Ideal, target: &Var, base: &PolySource, k: usize)
    requires
        old(ideal).wf(),
        old(builder).ns.wf(),
        pow_const_ok(old(builder).ns.next_sentinel(), old(builder).ns.count("pow_acc"@), target@, base.typ@, base.pv(), k as nat),
    ensures
        ({
            let run = pow_const_run(old(builder).ns.next_sentinel(), old(builder).ns.count("pow_acc"@), target@, base.typ@, base.pv(), k as nat);
            &&& run_done(*old(builder), *final(builder), *old(ideal), *final(ideal), run)
            &&& run_ext(run.0, target@, old(builder).ns.next_sentinel(), run.1.len())
        }),
{
    let ghost s0 = builder.ns.next_sentinel();
    let ghost c0 = builder.ns.count("pow_acc"@);
    let ghost (tb, pb) = (base.typ@, base.pv());
    let ghost i0 = *ideal;
    let ghost md = modulus() as int;
    let ghost run = pow_const_run(s0, c0, target@, tb, pb, k as nat);
    if k == 0 || k == 1 || !has_poly_type(&base.typ) {
        let polys = if k == 0 {
            let mut v: Vec<Polynomial> = Vec::new();
            v.push(Polynomial::lit(&Fe::one()));
            v
        } else if k == 1 {
            copy_polys(&base.polys)
        } else {
            let mut v: Vec<Polynomial> = Vec::new();
            let mut j: usize = 0;
            while j < base.polys.len()
                invariant
                    j <= base.polys@.len(),
                    v@.len() == j,
                    forall|t: int, env: Env| 0 <= t < j ==> #[trigger] eval(v@[t]@, env) == (pow(eval(base.polys@[t]@, env) as int, k as nat) as nat) % modulus(),
                decreases base.polys@.len() - j,
            {
                v.push(base.polys[j].pow(k));
                j = j + 1;
            }
            v
        };
        link_to_polys(ideal, target, polys);
        proof {
            let want = pow_direct_vals(pb, k as nat);
            let got = poly_vals(pviews(polys@));
            assert(want.len() == got.len());
            assert forall|t: int, env: Env| 0 <= t < want.len() implies #[trigger] (got[t](env) % md) == want[t](env) % md by {
                if k == 0 {
                    assert(eval(pviews(polys@)[0], env) == 1nat % modulus());
                    vstd::arithmetic::div_mod::lemma_small_mod(1, modulus());
                } else if k == 1 {
                    vstd::arithmetic::power::lemma_pow1(eval(pb[t], env) as int);
                    vstd::arithmetic::div_mod::lemma_small_mod(eval(pb[t], env), modulus());
                } else {
                    let x = pow(eval(pb[t], env) as int, k as nat);
                    crate::poly::lemma_pow_nonneg(eval(pb[t], env) as int, k as nat);
                    assert(eval(pviews(polys@)[t], env) == (x as nat) % modulus());
                    vstd::arithmetic::div_mod::lemma_mod_twice(x, md);
                }
            }
            crate::arith::lemma_encodes_vals(i0, *ideal, slot_list(target@), got, want);
            assert(firsts(run.0) =~= slot_list(target@));
            assert(seconds(run.0) =~= want);
            assert(views(ideal.var_order@) =~= views(i0.var_order@) + run.1);
            lemma_slots_extend(target@);
        }
        return;
    }
    let mut acc = PolySource { polys: copy_polys(&base.polys), typ: base.typ.clone() };
    let ghost o0 = views(ideal.var_order@);
    proof {
        lemma_encodes_nothing(*ideal);
        assert(firsts(pow_enc(s0, c0, tb, pb, 0)) =~= Seq::<VarV>::empty());
        assert(seconds(pow_enc(s0, c0, tb, pb, 0)) =~= Seq::<spec_fn(Env) -> int>::empty());
        assert(o0 =~= o0 + Seq::<VarV>::empty());
    }
    let mut step: usize = 1;
    while step < k
        invariant
            1 <= step <= k,
            k >= 2,
            has_poly(tb),
            tb == base.typ@,
            pb == base.pv(),
            pow_const_ok(s0, c0, target@, tb, pb, k as nat),
            acc.typ@ == pow_shape(tb, step as nat)->0,
            acc.pv() == pow_operand(s0, c0, tb, pb, (step - 1) as nat),
            binds(i0, *ideal, firsts(pow_enc(s0, c0, tb, pb, (step - 1) as nat)), seconds(pow_enc(s0, c0, tb, pb, (step - 1) as nat))),
            forall|j: int| 0 <= j < pow_enc(s0, c0, tb, pb, (step - 1) as nat).len()
                ==> s0 - (step - 1) < #[trigger] pow_enc(s0, c0, tb, pb, (step - 1) as nat)[j].0.reference.0 <= s0,
            forall|j: int| 0 <= j < pow_enc(s0, c0, tb, pb, (step - 1) as nat).len()
                ==> !extends(#[trigger] pow_enc(s0, c0, tb, pb, (step - 1) as nat)[j].0, target@),
            views(ideal.var_order@) == o0 + Seq::new((step - 1) as nat, |q: int| pow_acc(s0, c0, tb, q as nat)),
            o0 == views(i0.var_order@),
            builder.ns.wf(),
            builder.ns.next_sentinel() == s0 - (step - 1),
            builder.ns.count("pow_acc"@) == c0 + (step - 1),
            forall|key: Seq<char>| key != "pow_acc"@ ==> #[trigger] builder.ns.count(key) == old(builder).ns.count(key),
            builder.ns.witnesses() == old(builder).ns.witnesses(),
            builder.ns.inverses() == old(builder).ns.inverses(),
        decreases k - step,
    {
        let ghost q = (step - 1) as nat;
        let ghost before = *ideal;
        proof {
            lemma_pow_shape_prefix(tb, step as nat + 1, k as nat);
        }
        let name = builder.ns.next_name("pow_acc");
        let next_typ = mul_shape_of(&acc.typ, &base.typ).unwrap();
        let next_var = builder.sentinel_var(&name, next_typ.clone(), ideal);
        let ghost mid = *ideal;
        assert(next_var@ == pow_acc(s0, c0, tb, q));
        proof {
            assert(mid.gens() == before.gens());
            assert(mid.defs() == before.defs());
            assert(mid.names() == before.names());
            assert(ew_ok(SlotOp::Mul, pow_acc(s0, c0, tb, q), pow_shape(tb, q + 1)->0, pow_operand(s0, c0, tb, pb, q), tb, pb));
        }
        mul_op_inner(ideal, &next_var, &acc, base, &next_typ);
        let ghost e_old = pow_enc(s0, c0, tb, pb, q);
        let ghost e_new = ew_enc(SlotOp::Mul, pow_acc(s0, c0, tb, q), pow_shape(tb, q + 1)->0, pow_operand(s0, c0, tb, pb, q), tb, pb);
        proof {
            lemma_ew_extends(SlotOp::Mul, pow_acc(s0, c0, tb, q), pow_shape(tb, q + 1)->0, pow_operand(s0, c0, tb, pb, q), tb, pb);
            assert(firsts(e_old).disjoint(firsts(e_new))) by {
                assert forall|x: int, y: int| 0 <= x < firsts(e_old).len() && 0 <= y < firsts(e_new).len() implies firsts(e_old)[x] != firsts(e_new)[y] by {
                    assert(extends(e_new[y].0, pow_acc(s0, c0, tb, q)));
                    assert(s0 - q < e_old[x].0.reference.0);
                }
            }
            lemma_binds_compose(i0, mid, *ideal, firsts(e_old), seconds(e_old), firsts(e_new), seconds(e_new));
            assert(pow_enc(s0, c0, tb, pb, q + 1) == e_old + e_new);
            assert(firsts(e_old + e_new) =~= firsts(e_old) + firsts(e_new));
            assert(seconds(e_old + e_new) =~= seconds(e_old) + seconds(e_new));
            assert forall|j: int| 0 <= j < (e_old + e_new).len() implies {
                let w = #[trigger] (e_old + e_new)[j].0;
                &&& (s0 - (q + 1) < w.reference.0 <= s0)
                &&& !extends(w, target@)
            } by {
                if j < e_old.len() {
                    assert((e_old + e_new)[j] == e_old[j]);
                } else {
                    assert((e_old + e_new)[j] == e_new[j - e_old.len()]);
                    assert(extends(e_new[j - e_old.len()].0, pow_acc(s0, c0, tb, q)));
                }
            }
            assert(views(ideal.var_order@) =~= o0 + Seq::new(q + 1, |t: int| pow_acc(s0, c0, tb, t as nat))) by {
                assert(views(ideal.var_order@) =~= views(before.var_order@).push(next_var@));
            }
        }
        let polys = slot_polys(&next_var);
        acc = PolySource { polys, typ: next_typ };
        step = step + 1;
    }
    let ghost pre = *ideal;
    let ghost e = pow_enc(s0, c0, tb, pb, (k - 1) as nat);
    let ghost last = pow_operand(s0, c0, tb, pb, (k - 1) as nat);
    link_to_polys(ideal, target, acc.polys);
    proof {
        lemma_slots_extend(target@);
        assert(firsts(e).disjoint(slot_list(target@))) by {
            assert forall|x: int, y: int| 0 <= x < firsts(e).len() && 0 <= y < slot_list(target@).len() implies firsts(e)[x] != slot_list(target@)[y] by {
                assert(extends(slot_list(target@)[y], target@));
                assert(!extends(e[x].0, target@));
            }
        }
        lemma_binds_compose(i0, pre, *ideal, firsts(e), seconds(e), slot_list(target@), poly_vals(last));
        let z = zip_slots(slot_list(target@), poly_vals(last));
        assert(firsts(e + z) =~= firsts(e) + slot_list(target@));
        assert(seconds(e + z) =~= seconds(e) + poly_vals(last));
        assert(run.1 =~= Seq::new((k - 1) as nat, |q: int| pow_acc(s0, c0, tb, q as nat)));
        assert forall|j: int| 0 <= j < run.0.len() implies {
            let w = #[trigger] run.0[j].0;
            extends(w, target@) || (s0 - run.1.len() < w.reference.0 <= s0 && target@.reference.0 < w.reference.0)
        } by {
            if j < e.len() {
                assert(run.0[j] == e[j]);
            } else {
                assert(run.0[j] == z[j - e.len()]);
                assert(extends(slot_list(target@)[j - e.len()], target@));
            }
        }
    }
}


/// What raising `(ta, pa)` to the exponent `(tb, pb)` into `t` binds, and
/// the accumulators it introduces: element by element over vectors of one
/// length, each element of a vector base to a constant exponent, a
/// constant base to each element of a vector of exponents, and at the
/// non-vector level [`pow_const_run`] with the constant exponent.
pub open spec fn pow_op_run(s0: nat, c0: nat, t: VarV, ta: TypV, pa: Seq<PolyV>, tb: TypV, pb: Seq<PolyV>) -> (Seq<(VarV, spec_fn(Env) -> int)>, Seq<VarV>)
    decreases ta, tb, 0nat,
{
    match ta {
        TypV::Vec(ea, na) => match tb {
            TypV::Vec(eb, nb) => if na == nb {
                pow_vv(s0, c0, t, *ea, pa, *eb, pb, na)
            } else {
                pow_vl(s0, c0, t, *ea, pa, pb, na)
            },
            _ => pow_vl(s0, c0, t, *ea, pa, pb, na),
        },
        _ => match tb {
            TypV::Vec(eb, nb) => pow_vr(s0, c0, t, ta, pa, *eb, pb, nb),
            _ => pow_const_run(s0, c0, t, ta, pa, exp_of(pb)),
        },
    }
}

/// The runs of the first `i` element pairs of two vectors, each taking
/// sentinels after those of the elements before it.
pub open spec fn pow_vv(s0: nat, c0: nat, t: VarV, ea: TypV, pa: Seq<PolyV>, eb: TypV, pb: Seq<PolyV>, i: nat) -> (Seq<(VarV, spec_fn(Env) -> int)>, Seq<VarV>)
    decreases ea, eb, i,
{
    if i == 0 {
        (Seq::empty(), Seq::empty())
    } else {
        let k = (i - 1) as nat;
        let prev = pow_vv(s0, c0, t, ea, pa, eb, pb, k);
        let u = prev.1.len();
        let cur = pow_op_run((s0 - u) as nat, c0 + u, child(t, k, tel(t)), ea, slice(pa, ea, k), eb, slice(pb, eb, k));
        (prev.0 + cur.0, prev.1 + cur.1)
    }
}

/// The runs of the first `i` elements of a vector base raised to the
/// constant exponent `pb`.
pub open spec fn pow_vl(s0: nat, c0: nat, t: VarV, ea: TypV, pa: Seq<PolyV>, pb: Seq<PolyV>, i: nat) -> (Seq<(VarV, spec_fn(Env) -> int)>, Seq<VarV>)
    decreases i,
{
    if i == 0 {
        (Seq::empty(), Seq::empty())
    } else {
        let k = (i - 1) as nat;
        let prev = pow_vl(s0, c0, t, ea, pa, pb, k);
        let u = prev.1.len();
        let cur = pow_const_run((s0 - u) as nat, c0 + u, child(t, k, tel(t)), ea, slice(pa, ea, k), exp_of(pb));
        (prev.0 + cur.0, prev.1 + cur.1)
    }
}

/// The runs of a base raised to each of the first `i` constant exponents
/// of a vector.
pub open spec fn pow_vr(s0: nat, c0: nat, t: VarV, ta: TypV, pa: Seq<PolyV>, eb: TypV, pb: Seq<PolyV>, i: nat) -> (Seq<(VarV, spec_fn(Env) -> int)>, Seq<VarV>)
    decreases i,
{
    if i == 0 {
        (Seq::empty(), Seq::empty())
    } else {
        let k = (i - 1) as nat;
        let prev = pow_vr(s0, c0, t, ta, pa, eb, pb, k);
        let u = prev.1.len();
        let cur = pow_const_run((s0 - u) as nat, c0 + u, child(t, k, tel(t)), ta, pa, exp_of(slice(pb, eb, k)));
        (prev.0 + cur.0, prev.1 + cur.1)
    }
}

/// What [`pow_op_inner`] needs: slot counts that match, vector targets for
/// vector operands, constant exponents wherever a base is raised, and what
/// [`pow_const`] needs at each of them.
pub open spec fn pow_op_ok(s0: nat, c0: nat, t: VarV, ta: TypV, pa: Seq<PolyV>, tb: TypV, pb: Seq<PolyV>) -> bool
    decreases ta, tb, 0nat,
{
    &&& pa.len() == plen(ta)
    &&& pb.len() == plen(tb)
    &&& index_ok(t.typ)
    &&& match ta {
        TypV::Vec(ea, na) => vec_target(t, na) && match tb {
            TypV::Vec(eb, nb) => if na == nb {
                pow_vv_ok(s0, c0, t, *ea, pa, *eb, pb, na)
            } else {
                const_exp(pb) && pow_vl_ok(s0, c0, t, *ea, pa, pb, na)
            },
            _ => const_exp(pb) && pow_vl_ok(s0, c0, t, *ea, pa, pb, na),
        },
        _ => match tb {
            TypV::Vec(eb, nb) => vec_target(t, nb) && pow_vr_ok(s0, c0, t, ta, pa, *eb, pb, nb),
            _ => const_exp(pb) && pow_const_ok(s0, c0, t, ta, pa, exp_of(pb)),
        },
    }
}

pub open spec fn pow_vv_ok(s0: nat, c0: nat, t: VarV, ea: TypV, pa: Seq<PolyV>, eb: TypV, pb: Seq<PolyV>, i: nat) -> bool
    decreases ea, eb, i,
{
    if i == 0 {
        true
    } else {
        let k = (i - 1) as nat;
        let u = pow_vv(s0, c0, t, ea, pa, eb, pb, k).1.len();
        &&& pow_vv_ok(s0, c0, t, ea, pa, eb, pb, k)
        &&& u <= s0
        &&& pow_op_ok((s0 - u) as nat, c0 + u, child(t, k, tel(t)), ea, slice(pa, ea, k), eb, slice(pb, eb, k))
    }
}

pub open spec fn pow_vl_ok(s0: nat, c0: nat, t: VarV, ea: TypV, pa: Seq<PolyV>, pb: Seq<PolyV>, i: nat) -> bool
    decreases i,
{
    if i == 0 {
        true
    } else {
        let k = (i - 1) as nat;
        let u = pow_vl(s0, c0, t, ea, pa, pb, k).1.len();
        &&& pow_vl_ok(s0, c0, t, ea, pa, pb, k)
        &&& u <= s0
        &&& pow_const_ok((s0 - u) as nat, c0 + u, child(t, k, tel(t)), ea, slice(pa, ea, k), exp_of(pb))
    }
}

pub open spec fn pow_vr_ok(s0: nat, c0: nat, t: VarV, ta: TypV, pa: Seq<PolyV>, eb: TypV, pb: Seq<PolyV>, i: nat) -> bool
    decreases i,
{
    if i == 0 {
        true
    } else {
        let k = (i - 1) as nat;
        let u = pow_vr(s0, c0, t, ta, pa, eb, pb, k).1.len();
        &&& pow_vr_ok(s0, c0, t, ta, pa, eb, pb, k)
        &&& u <= s0
        &&& const_exp(slice(pb, eb, k))
        &&& pow_const_ok((s0 - u) as nat, c0 + u, child(t, k, tel(t)), ta, pa, exp_of(slice(pb, eb, k)))
    }
}

/// Raise `a` to the exponent `b` into `var` (see [`pow_op_run`]).
pub fn pow_op_inner(builder: &mut IdealBuilder, ideal: &mut Ideal, var: &Var, a: &PolySource, b: &PolySource)
    requires
        old(ideal).wf(),
        old(builder).ns.wf(),
        pow_op_ok(old(builder).ns.next_sentinel(), old(builder).ns.count("pow_acc"@), var@, a.typ@, a.pv(), b.typ@, b.pv()),
    ensures
        ({
            let run = pow_op_run(old(builder).ns.next_sentinel(), old(builder).ns.count("pow_acc"@), var@, a.typ@, a.pv(), b.typ@, b.pv());
            &&& run_done(*old(builder), *final(builder), *old(ideal), *final(ideal), run)
            &&& run_ext(run.0, var@, old(builder).ns.next_sentinel(), run.1.len())
        }),
    decreases a.typ@, b.typ@,
{
    let ghost s0 = builder.ns.next_sentinel();
    let ghost c0 = builder.ns.count("pow_acc"@);
    let ghost (ta, pa, tb, pb) = (a.typ@, a.pv(), b.typ@, b.pv());
    let ghost t = var@;
    let ghost b0 = *builder;
    let ghost i0 = *ideal;
    let a_vec = match &a.typ {
        ATyp::Vec(_, na) => Some(*na),
        _ => None,
    };
    let b_vec = match &b.typ {
        ATyp::Vec(_, nb) => Some(*nb),
        _ => None,
    };
    if a_vec.is_none() && b_vec.is_none() {
        let k = resolve_const_exp(b).unwrap();
        pow_const(builder, ideal, var, a, k);
        return;
    }
    proof {
        lemma_encodes_nothing(*ideal);
        assert(firsts(Seq::<(VarV, spec_fn(Env) -> int)>::empty()) =~= Seq::<VarV>::empty());
        assert(seconds(Seq::<(VarV, spec_fn(Env) -> int)>::empty()) =~= Seq::<spec_fn(Env) -> int>::empty());
        assert(views(ideal.var_order@) =~= views(i0.var_order@) + Seq::<VarV>::empty());
    }
    let pair = match (a_vec, b_vec) {
        (Some(na), Some(nb)) => na == nb,
        _ => false,
    };
    if pair {
        let n = a_vec.unwrap();
        let ghost ea = *ta->Vec_0;
        let ghost eb = *tb->Vec_0;
        assert(pow_op_run(s0, c0, t, ta, pa, tb, pb) == pow_vv(s0, c0, t, ea, pa, eb, pb, n as nat));
        let mut i: usize = 0;
        while i < n
            invariant
                i <= n,
                ta == TypV::Vec(Box::new(ea), n as nat),
                tb == TypV::Vec(Box::new(eb), n as nat),
                a.typ@ == ta,
                b.typ@ == tb,
                pa == a.pv(),
                pb == b.pv(),
                t == var@,
                s0 == b0.ns.next_sentinel(),
                c0 == b0.ns.count("pow_acc"@),
                vec_target(t, n as nat),
                index_ok(t.typ),
                pa.len() == plen(ta),
                pb.len() == plen(tb),
                pow_vv_ok(s0, c0, t, ea, pa, eb, pb, n as nat),
                run_done(b0, *builder, i0, *ideal, pow_vv(s0, c0, t, ea, pa, eb, pb, i as nat)),
                run_below(pow_vv(s0, c0, t, ea, pa, eb, pb, i as nat).0, t, i as nat, s0, pow_vv(s0, c0, t, ea, pa, eb, pb, i as nat).1.len()),
                pow_vv(s0, c0, t, ea, pa, eb, pb, i as nat).1.len() <= s0,
            decreases n - i,
        {
            let ghost k = i as nat;
            let ghost prev = pow_vv(s0, c0, t, ea, pa, eb, pb, k);
            let ghost u = prev.1.len();
            proof {
                lemma_vv_ok_at(s0, c0, t, ea, pa, eb, pb, n as nat, k);
                crate::arith::lemma_elem_len_pub(pa, ea, n as nat, k);
                crate::arith::lemma_elem_len_pub(pb, eb, n as nat, k);
            }
            let a_elem = a.at_index(i).unwrap();
            let b_elem = b.at_index(i).unwrap();
            let t_i = var.with_index(i).unwrap();
            let ghost bm = *builder;
            let ghost mid = *ideal;
            assert(t_i@ == child(t, k, tel(t)));
            pow_op_inner(builder, ideal, &t_i, &a_elem, &b_elem);
            proof {
                let cur = pow_op_run((s0 - u) as nat, c0 + u, child(t, k, tel(t)), ea, slice(pa, ea, k), eb, slice(pb, eb, k));
                lemma_child_step(prev.0, cur.0, t, k, tel(t), s0, u, cur.1.len());
                lemma_run_compose(b0, bm, *builder, i0, mid, *ideal, prev, cur);
                assert(pow_vv(s0, c0, t, ea, pa, eb, pb, k + 1) == (prev.0 + cur.0, prev.1 + cur.1));
            }
            i = i + 1;
        }
        proof {
            lemma_below_ext(pow_vv(s0, c0, t, ea, pa, eb, pb, n as nat).0, t, n as nat, s0, pow_vv(s0, c0, t, ea, pa, eb, pb, n as nat).1.len());
        }
    } else if a_vec.is_some() {
        let n = a_vec.unwrap();
        let ghost ea = *ta->Vec_0;
        assert(pow_op_run(s0, c0, t, ta, pa, tb, pb) == pow_vl(s0, c0, t, ea, pa, pb, n as nat));
        let kexp = resolve_const_exp(b).unwrap();
        let mut i: usize = 0;
        while i < n
            invariant
                i <= n,
                ta == TypV::Vec(Box::new(ea), n as nat),
                a.typ@ == ta,
                pa == a.pv(),
                pb == b.pv(),
                t == var@,
                s0 == b0.ns.next_sentinel(),
                c0 == b0.ns.count("pow_acc"@),
                kexp as nat == exp_of(pb),
                vec_target(t, n as nat),
                index_ok(t.typ),
                pa.len() == plen(ta),
                pow_vl_ok(s0, c0, t, ea, pa, pb, n as nat),
                run_done(b0, *builder, i0, *ideal, pow_vl(s0, c0, t, ea, pa, pb, i as nat)),
                run_below(pow_vl(s0, c0, t, ea, pa, pb, i as nat).0, t, i as nat, s0, pow_vl(s0, c0, t, ea, pa, pb, i as nat).1.len()),
                pow_vl(s0, c0, t, ea, pa, pb, i as nat).1.len() <= s0,
            decreases n - i,
        {
            let ghost k = i as nat;
            let ghost prev = pow_vl(s0, c0, t, ea, pa, pb, k);
            let ghost u = prev.1.len();
            proof {
                lemma_vl_ok_at(s0, c0, t, ea, pa, pb, n as nat, k);
                crate::arith::lemma_elem_len_pub(pa, ea, n as nat, k);
            }
            let a_elem = a.at_index(i).unwrap();
            let t_i = var.with_index(i).unwrap();
            let ghost bm = *builder;
            let ghost mid = *ideal;
            assert(t_i@ == child(t, k, tel(t)));
            pow_const(builder, ideal, &t_i, &a_elem, kexp);
            proof {
                let cur = pow_const_run((s0 - u) as nat, c0 + u, child(t, k, tel(t)), ea, slice(pa, ea, k), exp_of(pb));
                lemma_child_step(prev.0, cur.0, t, k, tel(t), s0, u, cur.1.len());
                lemma_run_compose(b0, bm, *builder, i0, mid, *ideal, prev, cur);
                assert(pow_vl(s0, c0, t, ea, pa, pb, k + 1) == (prev.0 + cur.0, prev.1 + cur.1));
            }
            i = i + 1;
        }
        proof {
            lemma_below_ext(pow_vl(s0, c0, t, ea, pa, pb, n as nat).0, t, n as nat, s0, pow_vl(s0, c0, t, ea, pa, pb, n as nat).1.len());
        }
    } else {
        let n = b_vec.unwrap();
        let ghost eb = *tb->Vec_0;
        assert(pow_op_run(s0, c0, t, ta, pa, tb, pb) == pow_vr(s0, c0, t, ta, pa, eb, pb, n as nat));
        let mut i: usize = 0;
        while i < n
            invariant
                i <= n,
                tb == TypV::Vec(Box::new(eb), n as nat),
                a.typ@ == ta,
                b.typ@ == tb,
                pa == a.pv(),
                pb == b.pv(),
                t == var@,
                s0 == b0.ns.next_sentinel(),
                c0 == b0.ns.count("pow_acc"@),
                vec_target(t, n as nat),
                index_ok(t.typ),
                pb.len() == plen(tb),
                pow_vr_ok(s0, c0, t, ta, pa, eb, pb, n as nat),
                run_done(b0, *builder, i0, *ideal, pow_vr(s0, c0, t, ta, pa, eb, pb, i as nat)),
                run_below(pow_vr(s0, c0, t, ta, pa, eb, pb, i as nat).0, t, i as nat, s0, pow_vr(s0, c0, t, ta, pa, eb, pb, i as nat).1.len()),
                pow_vr(s0, c0, t, ta, pa, eb, pb, i as nat).1.len() <= s0,
            decreases n - i,
        {
            let ghost k = i as nat;
            let ghost prev = pow_vr(s0, c0, t, ta, pa, eb, pb, k);
            let ghost u = prev.1.len();
            proof {
                lemma_vr_ok_at(s0, c0, t, ta, pa, eb, pb, n as nat, k);
                crate::arith::lemma_elem_len_pub(pb, eb, n as nat, k);
            }
            let b_elem = b.at_index(i).unwrap();
            let t_i = var.with_index(i).unwrap();
            let kexp = resolve_const_exp(&b_elem).unwrap();
            let ghost bm = *builder;
            let ghost mid = *ideal;
            assert(t_i@ == child(t, k, tel(t)));
            pow_const(builder, ideal, &t_i, a, kexp);
            proof {
                let cur = pow_const_run((s0 - u) as nat, c0 + u, child(t, k, tel(t)), ta, pa, exp_of(slice(pb, eb, k)));
                lemma_child_step(prev.0, cur.0, t, k, tel(t), s0, u, cur.1.len());
                lemma_run_compose(b0, bm, *builder, i0, mid, *ideal, prev, cur);
                assert(pow_vr(s0, c0, t, ta, pa, eb, pb, k + 1) == (prev.0 + cur.0, prev.1 + cur.1));
            }
            i = i + 1;
        }
        proof {
            lemma_below_ext(pow_vr(s0, c0, t, ta, pa, eb, pb, n as nat).0, t, n as nat, s0, pow_vr(s0, c0, t, ta, pa, eb, pb, n as nat).1.len());
        }
    }
}

proof fn lemma_below_ext(e: Seq<(VarV, spec_fn(Env) -> int)>, t: VarV, n: nat, s0: nat, used: nat)
    requires
        run_below(e, t, n, s0, used),
    ensures
        run_ext(e, t, s0, used),
{
}

/// The conditions of the first `n` element pairs hold of each of them.
proof fn lemma_vv_ok_at(s0: nat, c0: nat, t: VarV, ea: TypV, pa: Seq<PolyV>, eb: TypV, pb: Seq<PolyV>, n: nat, k: nat)
    requires
        pow_vv_ok(s0, c0, t, ea, pa, eb, pb, n),
        k < n,
    ensures
        pow_vv_ok(s0, c0, t, ea, pa, eb, pb, k + 1),
    decreases n,
{
    if k + 1 < n {
        lemma_vv_ok_at(s0, c0, t, ea, pa, eb, pb, (n - 1) as nat, k);
    }
}

proof fn lemma_vl_ok_at(s0: nat, c0: nat, t: VarV, ea: TypV, pa: Seq<PolyV>, pb: Seq<PolyV>, n: nat, k: nat)
    requires
        pow_vl_ok(s0, c0, t, ea, pa, pb, n),
        k < n,
    ensures
        pow_vl_ok(s0, c0, t, ea, pa, pb, k + 1),
    decreases n,
{
    if k + 1 < n {
        lemma_vl_ok_at(s0, c0, t, ea, pa, pb, (n - 1) as nat, k);
    }
}

proof fn lemma_vr_ok_at(s0: nat, c0: nat, t: VarV, ta: TypV, pa: Seq<PolyV>, eb: TypV, pb: Seq<PolyV>, n: nat, k: nat)
    requires
        pow_vr_ok(s0, c0, t, ta, pa, eb, pb, n),
        k < n,
    ensures
        pow_vr_ok(s0, c0, t, ta, pa, eb, pb, k + 1),
    decreases n,
{
    if k + 1 < n {
        lemma_vr_ok_at(s0, c0, t, ta, pa, eb, pb, (n - 1) as nat, k);
    }
}

/// Raise operand `a` to operand `b` into `var` (see [`pow_op_inner`]).
pub fn pow_op(builder: &mut IdealBuilder, ideal: &mut Ideal, var: &Var, a: &Operand, b: &Operand)
    requires
        old(ideal).wf(),
        old(builder).ns.wf(),
        operand_ok(*a, *old(ideal)),
        operand_ok(*b, *old(ideal)),
        pow_op_ok(
            old(builder).ns.next_sentinel(),
            old(builder).ns.count("pow_acc"@),
            var@,
            op_typ(*a),
            operand_polys(*a, *old(ideal)),
            op_typ(*b),
            operand_polys(*b, *old(ideal)),
        ),
    ensures
        run_done(
            *old(builder),
            *final(builder),
            *old(ideal),
            *final(ideal),
            pow_op_run(
                old(builder).ns.next_sentinel(),
                old(builder).ns.count("pow_acc"@),
                var@,
                op_typ(*a),
                operand_polys(*a, *old(ideal)),
                op_typ(*b),
                operand_polys(*b, *old(ideal)),
            ),
        ),
{
    let a_src = PolySource::from_ref_vars(ideal, a);
    let b_src = PolySource::from_ref_vars(ideal, b);
    pow_op_inner(builder, ideal, var, &a_src, &b_src);
}

} // verus!

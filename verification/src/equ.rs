//! Equality as a boolean: `b = (x == y)` tied to its operands by the
//! standard encoding, slot by slot of the common shape.
use vstd::prelude::*;

use crate::arith::slice;
use crate::field::{modulus, Fe};
use crate::ideal::Ideal;
use crate::interp::{invertible, is_inv};
use crate::namespace::{gb_name, IdealBuilder};
use crate::poly::Polynomial;
use crate::poly_source::{lemma_lift_vals, lift_val, liftable, op_typ, operand_ok, operand_polys, pviews, Operand, PolySource};
use crate::polyv::{eval, Env, PolyV};
use crate::typ::{plen, ABase, ATyp, TypV};
use crate::var::{child, index_ok, views, Qualifier, Ref, Var, VarV};

verus! {

broadcast use {crate::field::lemma_val_lt, crate::polyv::lemma_eval_lt};

/// The shape two compared operands are lifted to: the first one's when the
/// second lifts to it, the second one's otherwise.
pub open spec fn equ_lub(ta: TypV, tb: TypV) -> TypV {
    if liftable(tb, ta) {
        ta
    } else {
        tb
    }
}

/// Whether a value of shape `s` (with `sl` slots) lifts to shape `t`
/// (with `tl` slots).
fn lifts(s: &ATyp, sl: usize, t: &ATyp, tl: usize) -> (r: bool)
    requires
        sl == plen(s@),
        tl == plen(t@),
    ensures
        r == liftable(s@, t@),
{
    if sl > tl {
        return false;
    }
    if s.same(t) {
        return true;
    }
    match (s, t) {
        (ATyp::Base(_), ATyp::Base(_)) => true,
        (ATyp::Uni(_), ATyp::Uni(_)) => true,
        (ATyp::Mle(_), ATyp::Mle(_)) => true,
        (ATyp::Mle(n1), ATyp::Uni(m2)) => *n1 == 1 && *m2 >= 1,
        (ATyp::VPoly(n1, m1), ATyp::VPoly(n2, m2)) => *n1 <= *n2 && *m1 <= *m2,
        (ATyp::Uni(m1), ATyp::VPoly(n2, m2)) => *n2 >= 1 && *m1 <= *m2,
        (ATyp::Mle(n1), ATyp::VPoly(n2, m2)) => *n1 <= *n2 && *m2 >= 1,
        _ => false,
    }
}

/// Witness `j` of a comparison: the scalar sentinel `j` steps below `s0`,
/// named by the `equ_inv` counter from `c0`.
pub open spec fn equ_inv(s0: nat, c0: nat, j: nat) -> VarV {
    VarV {
        reference: Ref((s0 - j) as usize),
        index: Seq::empty(),
        typ: TypV::Base(ABase::Scalar),
        qualifier: Qualifier::Local,
        name: gb_name("equ_inv"@, c0 + j),
    }
}

/// Difference of slot `j` of the two operands, both lifted to shape `l`.
pub open spec fn equ_diff(ta: TypV, pa: Seq<PolyV>, tb: TypV, pb: Seq<PolyV>, l: TypV, j: int, env: Env) -> int {
    lift_val(ta, l, pa, j, env) - lift_val(tb, l, pb, j, env)
}

/// `sum_{j < k} d_j * inv_j`.
pub open spec fn equ_sum(s0: nat, c0: nat, ta: TypV, pa: Seq<PolyV>, tb: TypV, pb: Seq<PolyV>, l: TypV, env: Env, k: nat) -> int
    decreases k,
{
    if k == 0 {
        0
    } else {
        let j = (k - 1) as nat;
        equ_sum(s0, c0, ta, pa, tb, pb, l, env, j) + equ_diff(ta, pa, tb, pb, l, j as int, env) * env(equ_inv(s0, c0, j))
    }
}

/// What comparing `(ta, pa)` with `(tb, pb)` into the boolean `v` adds:
/// one generator `d_j * v` per slot of the common shape, then
/// `v - 1 + sum_j d_j * inv_j` with one fresh witness per slot; and those
/// witnesses, in order.
pub open spec fn equ_leaf_run(s0: nat, c0: nat, v: VarV, ta: TypV, pa: Seq<PolyV>, tb: TypV, pb: Seq<PolyV>) -> (Seq<spec_fn(Env) -> int>, Seq<VarV>) {
    let l = equ_lub(ta, tb);
    let n = plen(l);
    (
        Seq::new(n, |j: int| (|env: Env| equ_diff(ta, pa, tb, pb, l, j, env) * env(v))).push(
            |env: Env| env(v) - 1 + equ_sum(s0, c0, ta, pa, tb, pb, l, env, n),
        ),
        Seq::new(n, |j: int| equ_inv(s0, c0, j as nat)),
    )
}

/// What comparing into `v` adds: at a boolean, [`equ_leaf_run`]; at a
/// vector of results, the runs of its elements in turn.
pub open spec fn equ_run(s0: nat, c0: nat, v: VarV, ta: TypV, pa: Seq<PolyV>, tb: TypV, pb: Seq<PolyV>) -> (Seq<spec_fn(Env) -> int>, Seq<VarV>)
    decreases v.typ, 0nat,
{
    match v.typ {
        TypV::Vec(e, n) => equ_vec(s0, c0, v, *e, ta, pa, tb, pb, n),
        _ => equ_leaf_run(s0, c0, v, ta, pa, tb, pb),
    }
}

/// The runs of the first `i` elements of a vector result of element shape
/// `e`, each taking witnesses after those before it.
pub open spec fn equ_vec(s0: nat, c0: nat, v: VarV, e: TypV, ta: TypV, pa: Seq<PolyV>, tb: TypV, pb: Seq<PolyV>, i: nat) -> (Seq<spec_fn(Env) -> int>, Seq<VarV>)
    decreases e, i,
{
    if i == 0 {
        (Seq::empty(), Seq::empty())
    } else {
        let k = (i - 1) as nat;
        let prev = equ_vec(s0, c0, v, e, ta, pa, tb, pb, k);
        let u = prev.1.len();
        let ea = ta->Vec_0;
        let eb = tb->Vec_0;
        let cur = equ_run((s0 - u) as nat, c0 + u, child(v, k, e), *ea, slice(pa, *ea, k), *eb, slice(pb, *eb, k));
        (prev.0 + cur.0, prev.1 + cur.1)
    }
}

/// What comparing into `v` needs: a boolean or a vector of them, vector
/// operands of at least as many elements at each vector level, operands
/// that lift to their common shape, and witnesses left to hand out.
pub open spec fn equ_ok(s0: nat, c0: nat, v: VarV, ta: TypV, pa: Seq<PolyV>, tb: TypV, pb: Seq<PolyV>) -> bool
    decreases v.typ, 0nat,
{
    &&& pa.len() == plen(ta)
    &&& pb.len() == plen(tb)
    &&& index_ok(v.typ)
    &&& match v.typ {
        TypV::Base(ABase::Bool) => {
            let l = equ_lub(ta, tb);
            &&& liftable(ta, l)
            &&& liftable(tb, l)
            &&& plen(l) <= usize::MAX
            &&& plen(l) <= s0
            &&& s0 <= usize::MAX
            &&& c0 + plen(l) < usize::MAX
        },
        TypV::Vec(e, n) => {
            &&& ta matches TypV::Vec(_, na) && n <= na
            &&& tb matches TypV::Vec(_, nb) && n <= nb
            &&& equ_vec_ok(s0, c0, v, *e, ta, pa, tb, pb, n)
        },
        _ => false,
    }
}

pub open spec fn equ_vec_ok(s0: nat, c0: nat, v: VarV, e: TypV, ta: TypV, pa: Seq<PolyV>, tb: TypV, pb: Seq<PolyV>, i: nat) -> bool
    decreases e, i,
{
    if i == 0 {
        true
    } else {
        let k = (i - 1) as nat;
        let u = equ_vec(s0, c0, v, e, ta, pa, tb, pb, k).1.len();
        let ea = ta->Vec_0;
        let eb = tb->Vec_0;
        &&& equ_vec_ok(s0, c0, v, e, ta, pa, tb, pb, k)
        &&& u <= s0
        &&& equ_ok((s0 - u) as nat, c0 + u, child(v, k, e), *ea, slice(pa, *ea, k), *eb, slice(pb, *eb, k))
    }
}

/// A comparison took builder `b0` to `b1` and ideal `i0` to `i1`: the
/// generators of `run` were appended, with the values it gives, its
/// witnesses introduced after the existing variables, and nothing else
/// changed but the builder's `equ_inv` counter and sentinels.
pub open spec fn equ_done(b0: IdealBuilder, b1: IdealBuilder, i0: Ideal, i1: Ideal, run: (Seq<spec_fn(Env) -> int>, Seq<VarV>)) -> bool {
    &&& i1.wf()
    &&& i1.defs() == i0.defs()
    &&& i1.names() == i0.names()
    &&& i1.gens().len() == i0.gens().len() + run.0.len()
    &&& forall|j: int| 0 <= j < i0.gens().len() ==> #[trigger] i1.gens()[j] == i0.gens()[j]
    &&& forall|j: int, env: Env| 0 <= j < run.0.len()
        ==> #[trigger] eval(i1.gens()[i0.gens().len() + j], env) == run.0[j](env) % (modulus() as int)
    &&& views(i1.var_order@) == views(i0.var_order@) + run.1
    &&& b1.ns.wf()
    &&& b1.ns.next_sentinel() == b0.ns.next_sentinel() - run.1.len()
    &&& b1.ns.count("equ_inv"@) == b0.ns.count("equ_inv"@) + run.1.len()
    &&& forall|key: Seq<char>| key != "equ_inv"@ ==> #[trigger] b1.ns.count(key) == b0.ns.count(key)
    &&& b1.ns.witnesses() == b0.ns.witnesses()
    &&& b1.ns.inverses() == b0.ns.inverses()
}

/// Two comparisons in a row make one.
proof fn lemma_equ_compose(
    b0: IdealBuilder,
    b1: IdealBuilder,
    b2: IdealBuilder,
    i0: Ideal,
    i1: Ideal,
    i2: Ideal,
    r1: (Seq<spec_fn(Env) -> int>, Seq<VarV>),
    r2: (Seq<spec_fn(Env) -> int>, Seq<VarV>),
)
    requires
        equ_done(b0, b1, i0, i1, r1),
        equ_done(b1, b2, i1, i2, r2),
    ensures
        equ_done(b0, b2, i0, i2, (r1.0 + r2.0, r1.1 + r2.1)),
{
    let n0 = i0.gens().len();
    let n1 = i1.gens().len();
    assert forall|j: int, env: Env| 0 <= j < (r1.0 + r2.0).len()
        implies #[trigger] eval(i2.gens()[n0 + j], env) == (r1.0 + r2.0)[j](env) % (modulus() as int) by {
        if j < r1.0.len() {
            assert(i2.gens()[n0 + j] == i1.gens()[n0 + j]);
        } else {
            assert(n0 + j == n1 + (j - r1.0.len()));
        }
    }
    assert forall|j: int| 0 <= j < n0 implies #[trigger] i2.gens()[j] == i0.gens()[j] by {
        assert(i2.gens()[j] == i1.gens()[j]);
    }
    assert(views(i2.var_order@) =~= views(i0.var_order@) + (r1.1 + r2.1));
}


/// `b = (a == c)` for one boolean `var`: both operands are lifted to their
/// common shape; each slot difference `d_j` gives the generator `d_j * b`,
/// and one more generator `b - 1 + sum_j d_j * inv_j` takes a fresh
/// witness per slot, so that `b` is one exactly when every `d_j` is zero.
fn equ_leaf(builder: &mut IdealBuilder, ideal: &mut Ideal, var: &Var, a: &PolySource, b: &PolySource)
    requires
        old(ideal).wf(),
        old(builder).ns.wf(),
        var.typ@ == TypV::Base(ABase::Bool),
        equ_ok(old(builder).ns.next_sentinel(), old(builder).ns.count("equ_inv"@), var@, a.typ@, a.pv(), b.typ@, b.pv()),
    ensures
        equ_done(
            *old(builder),
            *final(builder),
            *old(ideal),
            *final(ideal),
            equ_leaf_run(old(builder).ns.next_sentinel(), old(builder).ns.count("equ_inv"@), var@, a.typ@, a.pv(), b.typ@, b.pv()),
        ),
{
    let ghost s0 = builder.ns.next_sentinel();
    let ghost c0 = builder.ns.count("equ_inv"@);
    let ghost (ta, pa, tb, pb) = (a.typ@, a.pv(), b.typ@, b.pv());
    let ghost md = modulus() as int;
    let ghost i0 = *ideal;
    let ghost b0 = *builder;
    let ghost v = var@;
    let ghost run = equ_leaf_run(s0, c0, v, ta, pa, tb, pb);
    let al = a.polys.len();
    let bl = b.polys.len();
    let lub = if lifts(&b.typ, bl, &a.typ, al) { a.typ.clone() } else { b.typ.clone() };
    let ghost l = lub@;
    assert(l == equ_lub(ta, tb));
    let a_l = a.lift_to(&lub);
    let b_l = b.lift_to(&lub);
    proof {
        lemma_lift_vals(ta, l, pa, a_l.pv());
        lemma_lift_vals(tb, l, pb, b_l.pv());
    }
    let b_poly = Polynomial::var(var);
    let one = Polynomial::lit(&Fe::one());
    let n = a_l.polys.len();
    let mut diffs: Vec<Polynomial> = Vec::new();
    let mut j: usize = 0;
    while j < n
        invariant
            j <= n,
            n == plen(l),
            a_l.polys@.len() == n,
            b_l.polys@.len() == n,
            md == modulus() as int,
            forall|q: int, env: Env| 0 <= q < n ==> #[trigger] eval(a_l.pv()[q], env) == lift_val(ta, l, pa, q, env) % md,
            forall|q: int, env: Env| 0 <= q < n ==> #[trigger] eval(b_l.pv()[q], env) == lift_val(tb, l, pb, q, env) % md,
            diffs@.len() == j,
            forall|q: int, env: Env| 0 <= q < j ==> #[trigger] eval(diffs@[q]@, env) == equ_diff(ta, pa, tb, pb, l, q, env) % md,
        decreases n - j,
    {
        let d = a_l.polys[j].sub(&b_l.polys[j]);
        proof {
            assert forall|env: Env| #[trigger] eval(d@, env) == equ_diff(ta, pa, tb, pb, l, j as int, env) % md by {
                let x = lift_val(ta, l, pa, j as int, env);
                let y = lift_val(tb, l, pb, j as int, env);
                assert(eval(a_l.pv()[j as int], env) == x % md);
                assert(eval(b_l.pv()[j as int], env) == y % md);
                crate::polyv::lemma_mod_diff(x, y, md);
            }
        }
        diffs.push(d);
        j = j + 1;
    }
    let mut t: usize = 0;
    while t < n
        invariant
            t <= n,
            n == plen(l),
            diffs@.len() == n,
            md == modulus() as int,
            v == var@,
            run == equ_leaf_run(s0, c0, v, ta, pa, tb, pb),
            l == equ_lub(ta, tb),
            b_poly@ == PolyV::Var(v),
            forall|q: int, env: Env| 0 <= q < n ==> #[trigger] eval(diffs@[q]@, env) == equ_diff(ta, pa, tb, pb, l, q, env) % md,
            ideal.wf(),
            ideal.pl == i0.pl,
            ideal.vars == i0.vars,
            ideal.var_order == i0.var_order,
            ideal.gens().len() == i0.gens().len() + t,
            forall|q: int| 0 <= q < i0.gens().len() ==> #[trigger] ideal.gens()[q] == i0.gens()[q],
            forall|q: int, env: Env| 0 <= q < t ==> #[trigger] eval(ideal.gens()[i0.gens().len() + q], env) == run.0[q](env) % md,
        decreases n - t,
    {
        let g = diffs[t].mul(&b_poly);
        let ghost gb = ideal.generating_set@;
        ideal.generating_set.push(g);
        proof {
            assert(ideal.gens() =~= pviews(gb).push(g@));
            assert forall|env: Env| #[trigger] eval(g@, env) == run.0[t as int](env) % md by {
                let dv = equ_diff(ta, pa, tb, pb, l, t as int, env);
                vstd::arithmetic::div_mod::lemma_mul_mod_noop(dv, env(v) as int, md);
            }
        }
        t = t + 1;
    }
    let ghost mid = *ideal;
    let mut aggregate = b_poly.sub(&one);
    proof {
        assert forall|env: Env| #[trigger] eval(aggregate@, env) == (env(v) - 1 + equ_sum(s0, c0, ta, pa, tb, pb, l, env, 0)) % md by {
            crate::polyv::lemma_mod_diff(env(v) as int, 1, md);
            vstd::arithmetic::div_mod::lemma_small_mod(1, modulus());
        }
        assert(views(ideal.var_order@) =~= views(i0.var_order@) + Seq::new(0, |q: int| equ_inv(s0, c0, q as nat)));
    }
    let mut k: usize = 0;
    while k < n
        invariant
            k <= n,
            n == plen(l),
            v == var@,
            run == equ_leaf_run(s0, c0, v, ta, pa, tb, pb),
            l == equ_lub(ta, tb),
            n <= s0,
            s0 <= usize::MAX,
            c0 + n < usize::MAX,
            diffs@.len() == n,
            md == modulus() as int,
            forall|q: int, env: Env| 0 <= q < n ==> #[trigger] eval(diffs@[q]@, env) == equ_diff(ta, pa, tb, pb, l, q, env) % md,
            forall|env: Env| #[trigger] eval(aggregate@, env) == (env(v) - 1 + equ_sum(s0, c0, ta, pa, tb, pb, l, env, k as nat)) % md,
            ideal.wf(),
            ideal.generating_set == mid.generating_set,
            ideal.pl == i0.pl,
            ideal.vars == i0.vars,
            views(ideal.var_order@) == views(i0.var_order@) + Seq::new(k as nat, |q: int| equ_inv(s0, c0, q as nat)),
            builder.ns.wf(),
            builder.ns.next_sentinel() == s0 - k,
            builder.ns.count("equ_inv"@) == c0 + k,
            forall|key: Seq<char>| key != "equ_inv"@ ==> #[trigger] builder.ns.count(key) == b0.ns.count(key),
            builder.ns.witnesses() == b0.ns.witnesses(),
            builder.ns.inverses() == b0.ns.inverses(),
        decreases n - k,
    {
        let name = builder.ns.next_name("equ_inv");
        let ghost ob = views(ideal.var_order@);
        let inv_var = builder.sentinel_var(&name, ATyp::scalar(), ideal);
        assert(inv_var@ == equ_inv(s0, c0, k as nat));
        let term = diffs[k].mul(&Polynomial::var(&inv_var));
        let next = aggregate.add(&term);
        proof {
            assert(views(ideal.var_order@) =~= ob.push(inv_var@));
            assert(views(ideal.var_order@) =~= views(i0.var_order@) + Seq::new((k + 1) as nat, |q: int| equ_inv(s0, c0, q as nat)));
            assert forall|env: Env| #[trigger] eval(next@, env) == (env(v) - 1 + equ_sum(s0, c0, ta, pa, tb, pb, l, env, (k + 1) as nat)) % md by {
                let acc = env(v) - 1 + equ_sum(s0, c0, ta, pa, tb, pb, l, env, k as nat);
                let dv = equ_diff(ta, pa, tb, pb, l, k as int, env);
                let w = env(equ_inv(s0, c0, k as nat)) as int;
                vstd::arithmetic::div_mod::lemma_mul_mod_noop(dv, w, md);
                vstd::arithmetic::div_mod::lemma_add_mod_noop(acc, dv * w, md);
            }
        }
        aggregate = next;
        k = k + 1;
    }
    let ghost gb = ideal.generating_set@;
    ideal.generating_set.push(aggregate);
    proof {
        assert(ideal.gens() =~= pviews(gb).push(aggregate@));
        assert forall|q: int, env: Env| 0 <= q < run.0.len() implies #[trigger] eval(ideal.gens()[i0.gens().len() + q], env) == run.0[q](env) % md by {
            if q < n {
                assert(ideal.gens()[i0.gens().len() + q] == mid.gens()[i0.gens().len() + q]);
            }
        }
        assert forall|q: int| 0 <= q < i0.gens().len() implies #[trigger] ideal.gens()[q] == i0.gens()[q] by {
            assert(ideal.gens()[q] == mid.gens()[q]);
        }
        assert(ideal.defs() == i0.defs());
        assert(ideal.names() == i0.names());
    }
}

/// `b = (a == c)` into `var`: at a boolean, [`equ_leaf`]; at a vector of
/// results, element by element.
pub fn equ_op_inner(builder: &mut IdealBuilder, ideal: &mut Ideal, var: &Var, a: &PolySource, b: &PolySource)
    requires
        old(ideal).wf(),
        old(builder).ns.wf(),
        equ_ok(old(builder).ns.next_sentinel(), old(builder).ns.count("equ_inv"@), var@, a.typ@, a.pv(), b.typ@, b.pv()),
    ensures
        equ_done(
            *old(builder),
            *final(builder),
            *old(ideal),
            *final(ideal),
            equ_run(old(builder).ns.next_sentinel(), old(builder).ns.count("equ_inv"@), var@, a.typ@, a.pv(), b.typ@, b.pv()),
        ),
    decreases var.typ@,
{
    let ghost s0 = builder.ns.next_sentinel();
    let ghost c0 = builder.ns.count("equ_inv"@);
    let ghost (ta, pa, tb, pb) = (a.typ@, a.pv(), b.typ@, b.pv());
    let ghost v = var@;
    let ghost b0 = *builder;
    let ghost i0 = *ideal;
    let n = match &var.typ {
        ATyp::Vec(_, n) => *n,
        _ => {
            equ_leaf(builder, ideal, var, a, b);
            return;
        },
    };
    let ghost e = *v.typ->Vec_0;
    let ghost ea = *ta->Vec_0;
    let ghost eb = *tb->Vec_0;
    proof {
        assert(equ_run(s0, c0, v, ta, pa, tb, pb) == equ_vec(s0, c0, v, e, ta, pa, tb, pb, n as nat));
        assert(ideal.gens().len() == i0.gens().len() + 0);
        assert(views(ideal.var_order@) =~= views(i0.var_order@) + Seq::<VarV>::empty());
        assert(Seq::<spec_fn(Env) -> int>::empty().len() == 0);
    }
    let mut i: usize = 0;
    while i < n
        invariant
            i <= n,
            v == var@,
            v.typ == TypV::Vec(Box::new(e), n as nat),
            ta == a.typ@,
            tb == b.typ@,
            pa == a.pv(),
            pb == b.pv(),
            s0 == b0.ns.next_sentinel(),
            c0 == b0.ns.count("equ_inv"@),
            index_ok(v.typ),
            pa.len() == plen(ta),
            pb.len() == plen(tb),
            ta matches TypV::Vec(_, na) && n <= na,
            tb matches TypV::Vec(_, nb) && n <= nb,
            ea == *ta->Vec_0,
            eb == *tb->Vec_0,
            equ_vec_ok(s0, c0, v, e, ta, pa, tb, pb, n as nat),
            equ_done(b0, *builder, i0, *ideal, equ_vec(s0, c0, v, e, ta, pa, tb, pb, i as nat)),
        decreases n - i,
    {
        let ghost k = i as nat;
        let ghost prev = equ_vec(s0, c0, v, e, ta, pa, tb, pb, k);
        let ghost u = prev.1.len();
        proof {
            lemma_equ_vec_ok_at(s0, c0, v, e, ta, pa, tb, pb, n as nat, k);
            crate::arith::lemma_elem_len_pub(pa, ea, ta->Vec_1, k);
            crate::arith::lemma_elem_len_pub(pb, eb, tb->Vec_1, k);
        }
        let var_i = var.with_index(i).unwrap();
        let a_elem = a.at_index(i).unwrap();
        let b_elem = b.at_index(i).unwrap();
        let ghost bm = *builder;
        let ghost mid = *ideal;
        assert(var_i@ == child(v, k, e));
        equ_op_inner(builder, ideal, &var_i, &a_elem, &b_elem);
        proof {
            let cur = equ_run((s0 - u) as nat, c0 + u, child(v, k, e), ea, slice(pa, ea, k), eb, slice(pb, eb, k));
            lemma_equ_compose(b0, bm, *builder, i0, mid, *ideal, prev, cur);
            assert(equ_vec(s0, c0, v, e, ta, pa, tb, pb, k + 1) == (prev.0 + cur.0, prev.1 + cur.1));
        }
        i = i + 1;
    }
}

/// The conditions of the first `n` elements hold of each of them.
proof fn lemma_equ_vec_ok_at(s0: nat, c0: nat, v: VarV, e: TypV, ta: TypV, pa: Seq<PolyV>, tb: TypV, pb: Seq<PolyV>, n: nat, k: nat)
    requires
        equ_vec_ok(s0, c0, v, e, ta, pa, tb, pb, n),
        k < n,
    ensures
        equ_vec_ok(s0, c0, v, e, ta, pa, tb, pb, k + 1),
    decreases n,
{
    if k + 1 < n {
        lemma_equ_vec_ok_at(s0, c0, v, e, ta, pa, tb, pb, (n - 1) as nat, k);
    }
}

/// `var = (a == b)` for two operands (see [`equ_op_inner`]).
pub fn equ_op(builder: &mut IdealBuilder, ideal: &mut Ideal, var: &Var, a: &Operand, b: &Operand)
    requires
        old(ideal).wf(),
        old(builder).ns.wf(),
        operand_ok(*a, *old(ideal)),
        operand_ok(*b, *old(ideal)),
        equ_ok(
            old(builder).ns.next_sentinel(),
            old(builder).ns.count("equ_inv"@),
            var@,
            op_typ(*a),
            operand_polys(*a, *old(ideal)),
            op_typ(*b),
            operand_polys(*b, *old(ideal)),
        ),
    ensures
        equ_done(
            *old(builder),
            *final(builder),
            *old(ideal),
            *final(ideal),
            equ_run(
                old(builder).ns.next_sentinel(),
                old(builder).ns.count("equ_inv"@),
                var@,
                op_typ(*a),
                operand_polys(*a, *old(ideal)),
                op_typ(*b),
                operand_polys(*b, *old(ideal)),
            ),
        ),
{
    let a_src = PolySource::from_ref_vars(ideal, a);
    let b_src = PolySource::from_ref_vars(ideal, b);
    equ_op_inner(builder, ideal, var, &a_src, &b_src);
}


proof fn lemma_equ_sum_zero(s0: nat, c0: nat, ta: TypV, pa: Seq<PolyV>, tb: TypV, pb: Seq<PolyV>, l: TypV, env: Env, k: nat)
    requires
        forall|j: int| 0 <= j < k ==> #[trigger] equ_diff(ta, pa, tb, pb, l, j, env) % (modulus() as int) == 0,
    ensures
        equ_sum(s0, c0, ta, pa, tb, pb, l, env, k) % (modulus() as int) == 0,
    decreases k,
{
    let m = modulus() as int;
    if k > 0 {
        let j = (k - 1) as nat;
        lemma_equ_sum_zero(s0, c0, ta, pa, tb, pb, l, env, j);
        let d = equ_diff(ta, pa, tb, pb, l, j as int, env);
        let w = env(equ_inv(s0, c0, j)) as int;
        vstd::arithmetic::div_mod::lemma_mul_mod_noop_left(d, w, m);
        assert((d % m) * w == 0 * w);
        vstd::arithmetic::div_mod::lemma_add_mod_noop(equ_sum(s0, c0, ta, pa, tb, pb, l, env, j), d * w, m);
    }
}

/// Wherever the generators a comparison of `(ta, pa)` with `(tb, pb)` into
/// the boolean `v` adds all vanish, `v` is one when every slot difference
/// vanishes, and zero when some slot difference is invertible (in the
/// prime field, when it is nonzero).
pub proof fn lemma_equ_decides(
    b0: IdealBuilder,
    b1: IdealBuilder,
    i0: Ideal,
    i1: Ideal,
    v: VarV,
    ta: TypV,
    pa: Seq<PolyV>,
    tb: TypV,
    pb: Seq<PolyV>,
    env: Env,
)
    requires
        equ_done(b0, b1, i0, i1, equ_leaf_run(b0.ns.next_sentinel(), b0.ns.count("equ_inv"@), v, ta, pa, tb, pb)),
        forall|k: int| i0.gens().len() <= k < i1.gens().len() ==> #[trigger] eval(i1.gens()[k], env) == 0,
    ensures
        (forall|j: int| 0 <= j < plen(equ_lub(ta, tb)) ==> #[trigger] equ_diff(ta, pa, tb, pb, equ_lub(ta, tb), j, env) % (modulus() as int) == 0)
            ==> env(v) % modulus() == 1,
        forall|j: int| 0 <= j < plen(equ_lub(ta, tb)) && invertible(#[trigger] equ_diff(ta, pa, tb, pb, equ_lub(ta, tb), j, env))
            ==> env(v) % modulus() == 0,
{
    let m = modulus() as int;
    let s0 = b0.ns.next_sentinel();
    let c0 = b0.ns.count("equ_inv"@);
    let l = equ_lub(ta, tb);
    let n = plen(l);
    let run = equ_leaf_run(s0, c0, v, ta, pa, tb, pb);
    let g0 = i0.gens().len();
    let b = env(v) as int;
    assert forall|j: int| 0 <= j < n implies #[trigger] (equ_diff(ta, pa, tb, pb, l, j, env) * b) % m == 0 by {
        assert(eval(i1.gens()[g0 + j], env) == run.0[j](env) % m);
        assert(i0.gens().len() <= g0 + j < i1.gens().len());
    }
    if forall|j: int| 0 <= j < n ==> #[trigger] equ_diff(ta, pa, tb, pb, l, j, env) % m == 0 {
        lemma_equ_sum_zero(s0, c0, ta, pa, tb, pb, l, env, n);
        let sum = equ_sum(s0, c0, ta, pa, tb, pb, l, env, n);
        assert(eval(i1.gens()[(g0 + n) as int], env) == run.0[n as int](env) % m);
        assert(i0.gens().len() <= g0 + n < i1.gens().len());
        assert((b - 1 + sum) % m == 0);
        vstd::arithmetic::div_mod::lemma_add_mod_noop(b - 1, sum, m);
        vstd::arithmetic::div_mod::lemma_mod_twice(b - 1, m);
        assert((b - 1) % m == 0);
        vstd::arithmetic::div_mod::lemma_fundamental_div_mod(b - 1, m);
        vstd::arithmetic::div_mod::lemma_fundamental_div_mod(b, m);
        vstd::arithmetic::div_mod::lemma_mod_add_multiples_vanish(1, m);
        vstd::arithmetic::div_mod::lemma_mod_multiples_vanish((b - 1) / m, 1, m);
        assert(b == m * ((b - 1) / m) + 1);
        vstd::arithmetic::div_mod::lemma_small_mod(1, modulus());
    }
    assert forall|j: int| 0 <= j < n && invertible(#[trigger] equ_diff(ta, pa, tb, pb, l, j, env)) implies b % m == 0 by {
        let d = equ_diff(ta, pa, tb, pb, l, j, env);
        let y = choose|u: nat| is_inv(d, u);
        let y = y as int;
        vstd::arithmetic::div_mod::lemma_mul_mod_noop_left(d * y, b, m);
        assert(((d * y) % m) * b == 1 * b);
        assert((d * y) * b == y * (d * b)) by (nonlinear_arith);
        vstd::arithmetic::div_mod::lemma_mul_mod_noop_right(y, d * b, m);
        assert(y * ((d * b) % m) == y * 0);
    }
}

} // verus!

//! Division and remainder: slot-wise field division by a denominator kept
//! nonzero, and univariate polynomial long division with fresh quotient
//! and remainder witnesses tied down by a degree chain.
use vstd::prelude::*;

use crate::field::{modulus, Fe};
use crate::ideal::{def_keys, defs_distinct, lemma_defs_dom, Ideal};
use crate::inline::{consistent, lemma_subst_eval, subst};
use crate::namespace::{gb_name, IdealBuilder};
use crate::poly::Polynomial;
use crate::poly_source::{op_typ, operand_ok, operand_polys, pviews, Operand, PolySource};
use crate::polyv::{eval, lemma_mod_diff, poly_vars, Env, PolyV};
use crate::pow::zero_env;
use crate::typ::{plen, ABase, ATyp, TypV};
use crate::encode::{bind_defs, encodes, link_to_witness, poly_vals, var_polys};
use crate::arith::{lemma_elem_len_pub, slice};
use crate::var::{child, index_ok, lemma_slot_count, slot_list, slots_ok, views, Qualifier, Ref, Var, VarV};

verus! {

broadcast use {crate::field::lemma_val_lt, crate::polyv::lemma_eval_lt};

/// How many of the fresh variables `a` are named by `k`.
pub open spec fn key_count(a: Seq<(Seq<char>, TypV)>, k: Seq<char>) -> nat
    decreases a.len(),
{
    if a.len() == 0 {
        0
    } else {
        key_count(a.drop_last(), k) + if a.last().0 == k {
            1nat
        } else {
            0nat
        }
    }
}

/// Name counters `cnt` after the fresh variables `a` took their names.
pub open spec fn shift_cnt(cnt: spec_fn(Seq<char>) -> nat, a: Seq<(Seq<char>, TypV)>) -> spec_fn(Seq<char>) -> nat {
    |k: Seq<char>| cnt(k) + key_count(a, k)
}

/// The name counters of a builder.
pub open spec fn builder_cnt(b: IdealBuilder) -> spec_fn(Seq<char>) -> nat {
    |k: Seq<char>| b.ns.count(k)
}

/// Fresh variable `i` of the list `a` of (name key, shape) pairs, handed out
/// from sentinel `s0` down with name counters `cnt`: a local scalar or
/// polynomial variable named `__zippel::gb::<key>::<n>`, `n` counting the
/// names for `key` handed out before it.
pub open spec fn alloc_var(s0: nat, cnt: spec_fn(Seq<char>) -> nat, a: Seq<(Seq<char>, TypV)>, i: int) -> VarV {
    VarV {
        reference: Ref((s0 - i) as usize),
        index: Seq::empty(),
        typ: a[i].1,
        qualifier: Qualifier::Local,
        name: gb_name(a[i].0, cnt(a[i].0) + key_count(a.take(i), a[i].0)),
    }
}

/// All fresh variables of `a`, in order.
pub open spec fn alloc_vars(s0: nat, cnt: spec_fn(Seq<char>) -> nat, a: Seq<(Seq<char>, TypV)>) -> Seq<VarV> {
    Seq::new(a.len(), |i: int| alloc_var(s0, cnt, a, i))
}

/// One division step after another. A step is described by the values of
/// the generators it adds, its fresh variables (name key and shape), and
/// the definitions it leaves.
pub open spec fn then_run(
    r1: (Seq<spec_fn(Env) -> int>, Seq<(Seq<char>, TypV)>, Map<VarV, PolyV>),
    r2: (Seq<spec_fn(Env) -> int>, Seq<(Seq<char>, TypV)>, Map<VarV, PolyV>),
) -> (Seq<spec_fn(Env) -> int>, Seq<(Seq<char>, TypV)>, Map<VarV, PolyV>) {
    (r1.0 + r2.0, r1.1 + r2.1, r2.2)
}

/// A division step took builder `b0` to `b1` and ideal `i0` to `i1`: the
/// generators of `run` were appended with the values it gives, its fresh
/// variables introduced in order after the existing ones, the definitions
/// became those of `run`, and nothing else changed but the builder's name
/// counters and sentinels.
pub open spec fn div_done(
    b0: IdealBuilder,
    b1: IdealBuilder,
    i0: Ideal,
    i1: Ideal,
    run: (Seq<spec_fn(Env) -> int>, Seq<(Seq<char>, TypV)>, Map<VarV, PolyV>),
) -> bool {
    &&& i1.wf()
    &&& i1.defs() == run.2
    &&& i1.names() == i0.names()
    &&& i1.gens().len() == i0.gens().len() + run.0.len()
    &&& forall|j: int| 0 <= j < i0.gens().len() ==> #[trigger] i1.gens()[j] == i0.gens()[j]
    &&& forall|j: int, env: Env| 0 <= j < run.0.len()
        ==> #[trigger] eval(i1.gens()[i0.gens().len() + j], env) == run.0[j](env) % (modulus() as int)
    &&& views(i1.var_order@) == views(i0.var_order@) + alloc_vars(b0.ns.next_sentinel(), builder_cnt(b0), run.1)
    &&& b1.ns.wf()
    &&& b1.ns.next_sentinel() + run.1.len() == b0.ns.next_sentinel()
    &&& forall|k: Seq<char>| #[trigger] b1.ns.count(k) == b0.ns.count(k) + key_count(run.1, k)
    &&& b1.ns.witnesses() == b0.ns.witnesses()
    &&& b1.ns.inverses() == b0.ns.inverses()
}

pub proof fn lemma_key_count_concat(a: Seq<(Seq<char>, TypV)>, b: Seq<(Seq<char>, TypV)>, k: Seq<char>)
    ensures
        key_count(a + b, k) == key_count(a, k) + key_count(b, k),
    decreases b.len(),
{
    if b.len() == 0 {
        assert(a + b =~= a);
    } else {
        lemma_key_count_concat(a, b.drop_last(), k);
        assert((a + b).drop_last() =~= a + b.drop_last());
        assert((a + b).last() == b.last());
    }
}

/// A fresh variable keeps its name and node when more are handed out after
/// it, or when those before it are counted into the starting state.
pub proof fn lemma_alloc_var_shift(s0: nat, cnt: spec_fn(Seq<char>) -> nat, a1: Seq<(Seq<char>, TypV)>, a2: Seq<(Seq<char>, TypV)>, i: int)
    requires
        0 <= i < a2.len(),
        a1.len() <= s0,
    ensures
        alloc_var((s0 - a1.len()) as nat, shift_cnt(cnt, a1), a2, i) == alloc_var(s0, cnt, a1 + a2, a1.len() + i),
{
    let j = a1.len() + i;
    assert((a1 + a2)[j] == a2[i]);
    assert((a1 + a2).take(j) =~= a1 + a2.take(i));
    lemma_key_count_concat(a1, a2.take(i), a2[i].0);
}

/// A fresh variable keeps its name and node when more are handed out after
/// it.
pub proof fn lemma_alloc_var_prefix(s0: nat, cnt: spec_fn(Seq<char>) -> nat, a1: Seq<(Seq<char>, TypV)>, a2: Seq<(Seq<char>, TypV)>, i: int)
    requires
        0 <= i < a1.len(),
    ensures
        alloc_var(s0, cnt, a1, i) == alloc_var(s0, cnt, a1 + a2, i),
{
    assert((a1 + a2)[i] == a1[i]);
    assert((a1 + a2).take(i) =~= a1.take(i));
}

/// Two division steps in a row make one.
pub proof fn lemma_div_compose(
    b0: IdealBuilder,
    b1: IdealBuilder,
    b2: IdealBuilder,
    i0: Ideal,
    i1: Ideal,
    i2: Ideal,
    r1: (Seq<spec_fn(Env) -> int>, Seq<(Seq<char>, TypV)>, Map<VarV, PolyV>),
    r2: (Seq<spec_fn(Env) -> int>, Seq<(Seq<char>, TypV)>, Map<VarV, PolyV>),
)
    requires
        div_done(b0, b1, i0, i1, r1),
        div_done(b1, b2, i1, i2, r2),
    ensures
        div_done(b0, b2, i0, i2, then_run(r1, r2)),
{
    let r = then_run(r1, r2);
    let n0 = i0.gens().len();
    let n1 = i1.gens().len();
    let s0 = b0.ns.next_sentinel();
    let c0 = builder_cnt(b0);
    assert forall|j: int, env: Env| 0 <= j < r.0.len()
        implies #[trigger] eval(i2.gens()[n0 + j], env) == r.0[j](env) % (modulus() as int) by {
        if j < r1.0.len() {
            assert(i2.gens()[n0 + j] == i1.gens()[n0 + j]);
        } else {
            assert(n0 + j == n1 + (j - r1.0.len()));
        }
    }
    assert forall|j: int| 0 <= j < n0 implies #[trigger] i2.gens()[j] == i0.gens()[j] by {
        assert(i2.gens()[j] == i1.gens()[j]);
    }
    assert(builder_cnt(b1) =~= shift_cnt(c0, r1.1));
    let s1 = b1.ns.next_sentinel();
    assert(s1 == (s0 - r1.1.len()) as nat);
    let whole = alloc_vars(s0, c0, r.1);
    let parts = alloc_vars(s0, c0, r1.1) + alloc_vars(s1, builder_cnt(b1), r2.1);
    assert forall|i: int| 0 <= i < r.1.len() implies #[trigger] whole[i] == parts[i] by {
        if i < r1.1.len() {
            lemma_alloc_var_prefix(s0, c0, r1.1, r2.1, i);
        } else {
            lemma_alloc_var_shift(s0, c0, r1.1, r2.1, i - r1.1.len());
        }
    }
    assert(whole =~= parts);
    assert(views(i2.var_order@) =~= views(i0.var_order@) + alloc_vars(s0, c0, r.1));
    assert forall|k: Seq<char>| #[trigger] b2.ns.count(k) == b0.ns.count(k) + key_count(r.1, k) by {
        lemma_key_count_concat(r1.1, r2.1, k);
    }
}

/// Whether a variable that `d` defines occurs in `p`.
pub open spec fn touches(p: PolyV, d: Map<VarV, PolyV>) -> bool
    decreases p,
{
    match p {
        PolyV::Lit(_) => false,
        PolyV::Var(v) => d.contains_key(v),
        PolyV::Add(a, b) => touches(*a, d) || touches(*b, d),
        PolyV::Sub(a, b) => touches(*a, d) || touches(*b, d),
        PolyV::Mul(a, b) => touches(*a, d) || touches(*b, d),
        PolyV::Neg(a) => touches(*a, d),
        PolyV::Pow(a, _) => touches(*a, d),
    }
}

/// Substitute the definitions once, `p` with each defined variable
/// replaced by its definition, together with whether any was.
fn subst_step(p: &Polynomial, ideal: &Ideal) -> (r: (Polynomial, bool))
    requires
        ideal.wf(),
    ensures
        r.0@ == subst(p@, ideal.defs()),
        r.1 == touches(p@, ideal.defs()),
    decreases p,
{
    match p {
        Polynomial::Lit(c) => (Polynomial::Lit(*c), false),
        Polynomial::Var(v) => match ideal.pl_get(v) {
            Some(q) => (q, true),
            None => (Polynomial::Var(v.clone()), false),
        },
        Polynomial::Add(a, b) => {
            let (x, y): (&Polynomial, &Polynomial) = (a, b);
            let (u, cu) = subst_step(x, ideal);
            let (w, cw) = subst_step(y, ideal);
            (Polynomial::Add(Box::new(u), Box::new(w)), cu || cw)
        },
        Polynomial::Sub(a, b) => {
            let (x, y): (&Polynomial, &Polynomial) = (a, b);
            let (u, cu) = subst_step(x, ideal);
            let (w, cw) = subst_step(y, ideal);
            (Polynomial::Sub(Box::new(u), Box::new(w)), cu || cw)
        },
        Polynomial::Mul(a, b) => {
            let (x, y): (&Polynomial, &Polynomial) = (a, b);
            let (u, cu) = subst_step(x, ideal);
            let (w, cw) = subst_step(y, ideal);
            (Polynomial::Mul(Box::new(u), Box::new(w)), cu || cw)
        },
        Polynomial::Neg(a) => {
            let x: &Polynomial = a;
            let (u, cu) = subst_step(x, ideal);
            (Polynomial::Neg(Box::new(u)), cu)
        },
        Polynomial::Pow(a, k) => {
            let x: &Polynomial = a;
            let (u, cu) = subst_step(x, ideal);
            (Polynomial::Pow(Box::new(u), *k), cu)
        },
    }
}

/// The constant `p` reaches by substituting the definitions `d` at most
/// `fuel` times, stopping when no defined variable is left to replace.
pub open spec fn resolve_steps(p: PolyV, d: Map<VarV, PolyV>, fuel: nat) -> Option<nat>
    decreases fuel,
{
    if fuel == 0 || !touches(p, d) {
        None
    } else {
        let q = subst(p, d);
        if poly_vars(q) == Set::<VarV>::empty() {
            Some(eval(q, zero_env()))
        } else {
            resolve_steps(q, d, (fuel - 1) as nat)
        }
    }
}

/// The constant `p` stands for under the definitions `d`: its value when no
/// variable occurs in it, else the value reached by substituting the
/// definitions, once per definition at most; `None` when that leaves a
/// variable.
pub open spec fn resolve(p: PolyV, d: Map<VarV, PolyV>) -> Option<nat> {
    if poly_vars(p) == Set::<VarV>::empty() {
        Some(eval(p, zero_env()))
    } else {
        resolve_steps(p, d, d.dom().len())
    }
}

/// The number of definitions is the number of defined variables.
proof fn lemma_defs_len(ideal: Ideal)
    requires
        ideal.wf(),
    ensures
        ideal.pl@.len() == ideal.defs().dom().len(),
{
    let s = ideal.pl@;
    lemma_defs_dom(s);
    let k = def_keys(s);
    assert(k.no_duplicates()) by {
        assert forall|i: int, j: int| 0 <= i < k.len() && 0 <= j < k.len() && i != j implies k[i] != k[j] by {
            assert(k[i] == s[i].0@);
            assert(k[j] == s[j].0@);
            if i < j {
                assert(s[i].0@ != s[j].0@);
            } else {
                assert(s[j].0@ != s[i].0@);
            }
        }
    }
    k.unique_seq_to_set();
}

/// The constant `p` stands for under the definitions of `ideal` (see
/// [`resolve`]).
pub fn resolved_constant(p: &Polynomial, ideal: &Ideal) -> (r: Option<Fe>)
    requires
        ideal.wf(),
    ensures
        r is Some <==> resolve(p@, ideal.defs()) is Some,
        r matches Some(c) ==> c.val() == resolve(p@, ideal.defs())->0,
{
    let ghost d = ideal.defs();
    match p.constant_value() {
        Some(c) => {
            proof {
                assert(eval(p@, zero_env()) == c.val() % modulus());
                vstd::arithmetic::div_mod::lemma_small_mod(c.val(), modulus());
            }
            return Some(c);
        },
        None => {},
    }
    proof {
        lemma_defs_len(*ideal);
    }
    let mut cur = p.clone();
    let mut fuel = ideal.pl.len();
    while fuel > 0
        invariant
            ideal.wf(),
            d == ideal.defs(),
            resolve(p@, d) == resolve_steps(cur@, d, fuel as nat),
        decreases fuel,
    {
        let (next, changed) = subst_step(&cur, ideal);
        if !changed {
            return None;
        }
        match next.constant_value() {
            Some(c) => {
                proof {
                    assert(eval(next@, zero_env()) == c.val() % modulus());
                    vstd::arithmetic::div_mod::lemma_small_mod(c.val(), modulus());
                }
                return Some(c);
            },
            None => {},
        }
        cur = next;
        fuel = fuel - 1;
    }
    None
}

/// A polynomial without variables has one value.
pub proof fn lemma_closed_eval(p: PolyV, e1: Env, e2: Env)
    requires
        poly_vars(p) == Set::<VarV>::empty(),
    ensures
        eval(p, e1) == eval(p, e2),
    decreases p,
{
    match p {
        PolyV::Add(a, b) | PolyV::Sub(a, b) | PolyV::Mul(a, b) => {
            assert(poly_vars(*a) =~= Set::<VarV>::empty());
            assert(poly_vars(*b) =~= Set::<VarV>::empty());
            lemma_closed_eval(*a, e1, e2);
            lemma_closed_eval(*b, e1, e2);
        },
        PolyV::Neg(a) | PolyV::Pow(a, _) => lemma_closed_eval(*a, e1, e2),
        PolyV::Var(v) => {
            assert(poly_vars(p).contains(v));
        },
        PolyV::Lit(_) => {},
    }
}

/// Wherever the definitions hold, a polynomial that resolves to a constant
/// takes that value.
pub proof fn lemma_resolve_sound(p: PolyV, d: Map<VarV, PolyV>, env: Env)
    requires
        consistent(d, env),
        resolve(p, d) is Some,
    ensures
        eval(p, env) == resolve(p, d)->0,
{
    if poly_vars(p) == Set::<VarV>::empty() {
        lemma_closed_eval(p, env, zero_env());
    } else {
        lemma_resolve_steps_sound(p, d, d.dom().len(), env);
    }
}

proof fn lemma_resolve_steps_sound(p: PolyV, d: Map<VarV, PolyV>, fuel: nat, env: Env)
    requires
        consistent(d, env),
        resolve_steps(p, d, fuel) is Some,
    ensures
        eval(p, env) == resolve_steps(p, d, fuel)->0,
    decreases fuel,
{
    let q = subst(p, d);
    lemma_subst_eval(p, d, env);
    if poly_vars(q) == Set::<VarV>::empty() {
        lemma_closed_eval(q, env, zero_env());
    } else {
        lemma_resolve_steps_sound(q, d, (fuel - 1) as nat, env);
    }
}

/// Room to hand out the fresh variables `a` from sentinel `s0` with name
/// counters `cnt`: enough sentinels, and no counter past a machine word.
pub open spec fn room(s0: nat, cnt: spec_fn(Seq<char>) -> nat, a: Seq<(Seq<char>, TypV)>) -> bool {
    &&& a.len() <= s0
    &&& forall|k: Seq<char>| #[trigger] cnt(k) + key_count(a, k) <= usize::MAX
}

/// Room for two lists of fresh variables in a row is room for each.
pub proof fn lemma_room_split(s0: nat, cnt: spec_fn(Seq<char>) -> nat, a1: Seq<(Seq<char>, TypV)>, a2: Seq<(Seq<char>, TypV)>)
    requires
        room(s0, cnt, a1 + a2),
    ensures
        room(s0, cnt, a1),
        room((s0 - a1.len()) as nat, shift_cnt(cnt, a1), a2),
{
    assert forall|k: Seq<char>| #[trigger] cnt(k) + key_count(a1, k) <= usize::MAX by {
        lemma_key_count_concat(a1, a2, k);
        assert(cnt(k) + key_count(a1 + a2, k) <= usize::MAX);
    }
    assert forall|k: Seq<char>| #[trigger] shift_cnt(cnt, a1)(k) + key_count(a2, k) <= usize::MAX by {
        lemma_key_count_concat(a1, a2, k);
        assert(cnt(k) + key_count(a1 + a2, k) <= usize::MAX);
    }
}

/// Appending generators of the given values, and nothing else, is a
/// division step with no fresh variable.
proof fn lemma_gens_only(b: IdealBuilder, i0: Ideal, i1: Ideal, vals: Seq<spec_fn(Env) -> int>)
    requires
        b.ns.wf(),
        i0.wf(),
        i1.pl == i0.pl,
        i1.vars == i0.vars,
        i1.var_order == i0.var_order,
        i1.gens().len() == i0.gens().len() + vals.len(),
        forall|j: int| 0 <= j < i0.gens().len() ==> #[trigger] i1.gens()[j] == i0.gens()[j],
        forall|j: int, env: Env| 0 <= j < vals.len()
            ==> #[trigger] eval(i1.gens()[i0.gens().len() + j], env) == vals[j](env) % (modulus() as int),
    ensures
        div_done(b, b, i0, i1, (vals, Seq::empty(), i0.defs())),
{
    assert(views(i1.var_order@) =~= views(i0.var_order@) + alloc_vars(b.ns.next_sentinel(), builder_cnt(b), Seq::empty()));
}

/// The values of the slot-wise division generators `a[j] - b[j] * t[j]`
/// for the slots `t` of the quotient.
pub open spec fn sw_div_vals(slots: Seq<VarV>, pa: Seq<PolyV>, pb: Seq<PolyV>) -> Seq<spec_fn(Env) -> int> {
    Seq::new(slots.len(), |j: int| (|env: Env| eval(pa[j], env) - eval(pb[j], env) * env(slots[j])))
}

/// Slot-wise field division: the generator `a[j] - b[j] * t[j]` for each
/// slot `t[j]` of `target`. The denominators are to be kept nonzero by the
/// caller.
pub fn slot_wise_div(ideal: &mut Ideal, target: &Var, a_polys: &Vec<Polynomial>, b_polys: &Vec<Polynomial>)
    requires
        old(ideal).wf(),
        slots_ok(target.typ@),
        a_polys@.len() == slot_list(target@).len(),
        b_polys@.len() == slot_list(target@).len(),
    ensures
        final(ideal).wf(),
        final(ideal).pl == old(ideal).pl,
        final(ideal).vars == old(ideal).vars,
        final(ideal).var_order == old(ideal).var_order,
        final(ideal).gens().len() == old(ideal).gens().len() + a_polys@.len(),
        forall|j: int| 0 <= j < old(ideal).gens().len() ==> #[trigger] final(ideal).gens()[j] == old(ideal).gens()[j],
        forall|j: int, env: Env| 0 <= j < a_polys@.len() ==> #[trigger] eval(final(ideal).gens()[old(ideal).gens().len() + j], env)
            == sw_div_vals(slot_list(target@), pviews(a_polys@), pviews(b_polys@))[j](env) % (modulus() as int),
{
    let slots = target.slots();
    let ghost vals = sw_div_vals(slot_list(target@), pviews(a_polys@), pviews(b_polys@));
    let ghost md = modulus() as int;
    let ghost g0 = ideal.gens().len();
    let mut j: usize = 0;
    while j < slots.len()
        invariant
            j <= slots@.len(),
            views(slots@) == slot_list(target@),
            a_polys@.len() == slots@.len(),
            b_polys@.len() == slots@.len(),
            vals == sw_div_vals(slot_list(target@), pviews(a_polys@), pviews(b_polys@)),
            md == modulus() as int,
            g0 == old(ideal).gens().len(),
            ideal.wf(),
            ideal.pl == old(ideal).pl,
            ideal.vars == old(ideal).vars,
            ideal.var_order == old(ideal).var_order,
            ideal.gens().len() == g0 + j,
            forall|q: int| 0 <= q < g0 ==> #[trigger] ideal.gens()[q] == old(ideal).gens()[q],
            forall|q: int, env: Env| 0 <= q < j ==> #[trigger] eval(ideal.gens()[g0 + q], env) == vals[q](env) % md,
        decreases slots@.len() - j,
    {
        let t = Polynomial::var(&slots[j]);
        let g = a_polys[j].sub(&b_polys[j].mul(&t));
        let ghost before = ideal.generating_set@;
        ideal.generating_set.push(g);
        proof {
            assert(ideal.gens() =~= pviews(before).push(g@));
            let tv = slots@[j as int]@;
            assert(tv == slot_list(target@)[j as int]);
            assert forall|env: Env| #[trigger] eval(g@, env) == vals[j as int](env) % md by {
                let x = eval(a_polys@[j as int]@, env) as int;
                let y = eval(b_polys@[j as int]@, env) as int;
                let w = env(tv) as int;
                assert(pviews(a_polys@)[j as int] == a_polys@[j as int]@);
                assert(pviews(b_polys@)[j as int] == b_polys@[j as int]@);
                vstd::arithmetic::div_mod::lemma_mul_mod_noop_right(y, w, md);
                lemma_mod_diff(x, y * w, md);
                vstd::arithmetic::div_mod::lemma_small_mod(x as nat, modulus());
            }
        }
        j = j + 1;
    }
}

/// What keeping the denominator `p` nonzero adds, under the definitions
/// `d`: nothing when `p` resolves to a nonzero constant; the generator `1`,
/// which makes the ideal the whole ring, when it resolves to zero; else
/// the generator `p * inv - 1` with a fresh scalar `inv`.
pub open spec fn nz_run(s0: nat, cnt: spec_fn(Seq<char>) -> nat, d: Map<VarV, PolyV>, p: PolyV) -> (Seq<spec_fn(Env) -> int>, Seq<(Seq<char>, TypV)>, Map<VarV, PolyV>) {
    match resolve(p, d) {
        Some(c) => if c == 0 {
            (seq![|env: Env| 1int], Seq::empty(), d)
        } else {
            (Seq::empty(), Seq::empty(), d)
        },
        None => {
            let a = seq![("div_inv"@, TypV::Base(ABase::Scalar))];
            let inv = alloc_var(s0, cnt, a, 0);
            (seq![|env: Env| eval(p, env) * env(inv) - 1], a, d)
        },
    }
}

/// Keep the denominator `p` nonzero (see [`nz_run`]).
pub fn enforce_nonzero(builder: &mut IdealBuilder, ideal: &mut Ideal, p: &Polynomial)
    requires
        old(ideal).wf(),
        old(builder).ns.wf(),
        room(old(builder).ns.next_sentinel(), builder_cnt(*old(builder)), nz_run(old(builder).ns.next_sentinel(), builder_cnt(*old(builder)), old(ideal).defs(), p@).1),
    ensures
        div_done(*old(builder), *final(builder), *old(ideal), *final(ideal),
            nz_run(old(builder).ns.next_sentinel(), builder_cnt(*old(builder)), old(ideal).defs(), p@)),
{
    let ghost b0 = *builder;
    let ghost i0 = *ideal;
    let ghost s0 = builder.ns.next_sentinel();
    let ghost cnt = builder_cnt(*builder);
    let ghost run = nz_run(s0, cnt, ideal.defs(), p@);
    let ghost md = modulus() as int;
    match resolved_constant(p, ideal) {
        Some(c) => {
            if c.is_zero() {
                let one = Polynomial::lit(&Fe::one());
                let ghost before = ideal.generating_set@;
                ideal.generating_set.push(one);
                proof {
                    assert(ideal.gens() =~= pviews(before).push(one@));
                    assert forall|env: Env| #[trigger] eval(one@, env) == run.0[0](env) % md by {
                        vstd::arithmetic::div_mod::lemma_small_mod(1, modulus());
                    }
                    lemma_gens_only(b0, i0, *ideal, run.0);
                }
            } else {
                proof {
                    lemma_gens_only(b0, i0, *ideal, run.0);
                }
            }
        },
        None => {
            let name = builder.ns.next_name("div_inv");
            proof {
                assert(cnt("div_inv"@) + key_count(run.1, "div_inv"@) <= usize::MAX);
                reveal_with_fuel(key_count, 2);
            }
            let inverse = builder.sentinel_var(&name, ATyp::scalar(), ideal);
            let inv_poly = Polynomial::var(&inverse);
            let one = Polynomial::lit(&Fe::one());
            let g = p.mul(&inv_poly).sub(&one);
            let ghost before = ideal.generating_set@;
            ideal.generating_set.push(g);
            proof {
                reveal_with_fuel(key_count, 2);
                let a = run.1;
                assert(a.take(0) =~= Seq::<(Seq<char>, TypV)>::empty());
                let iv = alloc_var(s0, cnt, a, 0);
                assert(inverse@ == iv);
                assert(ideal.gens() =~= pviews(before).push(g@));
                assert forall|env: Env| #[trigger] eval(g@, env) == run.0[0](env) % md by {
                    let x = eval(p@, env) as int;
                    let w = env(iv) as int;
                    vstd::arithmetic::div_mod::lemma_mul_mod_noop_right(x, w, md);
                    lemma_mod_diff(x * w, 1, md);
                    vstd::arithmetic::div_mod::lemma_small_mod(1, modulus());
                }
                assert(views(ideal.var_order@) =~= views(i0.var_order@) + alloc_vars(s0, cnt, a));
                assert forall|k: Seq<char>| #[trigger] builder.ns.count(k) == b0.ns.count(k) + key_count(a, k) by {
                    if k == "div_inv"@ {
                    } else {
                    }
                }
            }
        },
    }
}

/// Quotient and remainder witnesses of a polynomial division, of shapes
/// `Uni(ma)` and `rt`.
pub open spec fn wit_allocs(ma: nat, rt: TypV) -> Seq<(Seq<char>, TypV)> {
    seq![("div_q"@, TypV::Uni(ma)), ("div_r"@, rt)]
}

/// Fresh quotient and remainder witnesses, `div_q` and `div_r`.
fn alloc_div_witness_pair(builder: &mut IdealBuilder, ideal: &mut Ideal, quotient_typ: ATyp, remainder_typ: ATyp) -> (r: (Var, Var))
    requires
        old(ideal).wf(),
        old(builder).ns.wf(),
        room(old(builder).ns.next_sentinel(), builder_cnt(*old(builder)), wit_allocs(quotient_typ@->Uni_0, remainder_typ@)),
        quotient_typ@ matches TypV::Uni(_),
    ensures
        div_done(*old(builder), *final(builder), *old(ideal), *final(ideal),
            (Seq::empty(), wit_allocs(quotient_typ@->Uni_0, remainder_typ@), old(ideal).defs())),
        r.0@ == alloc_var(old(builder).ns.next_sentinel(), builder_cnt(*old(builder)), wit_allocs(quotient_typ@->Uni_0, remainder_typ@), 0),
        r.1@ == alloc_var(old(builder).ns.next_sentinel(), builder_cnt(*old(builder)), wit_allocs(quotient_typ@->Uni_0, remainder_typ@), 1),
{
    let ghost b0 = *builder;
    let ghost i0 = *ideal;
    let ghost s0 = builder.ns.next_sentinel();
    let ghost cnt = builder_cnt(*builder);
    let ghost a = wit_allocs(quotient_typ@->Uni_0, remainder_typ@);
    proof {
        reveal_with_fuel(key_count, 3);
        assert(cnt("div_q"@) + key_count(a, "div_q"@) <= usize::MAX);
        assert(cnt("div_r"@) + key_count(a, "div_r"@) <= usize::MAX);
    }
    let q_name = builder.ns.next_name("div_q");
    let r_name = builder.ns.next_name("div_r");
    let q_wit = builder.sentinel_var(&q_name, quotient_typ, ideal);
    let r_wit = builder.sentinel_var(&r_name, remainder_typ, ideal);
    proof {
        reveal_with_fuel(key_count, 3);
        assert(a.take(0) =~= Seq::<(Seq<char>, TypV)>::empty());
        assert(a.take(1) =~= seq![a[0]]);
        assert(seq![a[0]].drop_last() =~= Seq::<(Seq<char>, TypV)>::empty());
        assert(views(ideal.var_order@) =~= views(i0.var_order@) + alloc_vars(s0, cnt, a));
        assert forall|k: Seq<char>| #[trigger] builder.ns.count(k) == b0.ns.count(k) + key_count(a, k) by {
            assert(a.drop_last() =~= seq![a[0]]);
        }
        assert(ideal.gens() =~= i0.gens());
    }
    (q_wit, r_wit)
}

/// The values of the linking generators `w[j] - t[j]`.
pub open spec fn link_vals(ts: Seq<VarV>, ws: Seq<VarV>) -> Seq<spec_fn(Env) -> int> {
    Seq::new(ts.len(), |j: int| (|env: Env| env(ws[j]) - env(ts[j])))
}

/// What linking the slots of `t` to those of the witness `w` adds, under
/// the definitions `d`.
pub open spec fn link_run(d: Map<VarV, PolyV>, t: VarV, w: VarV) -> (Seq<spec_fn(Env) -> int>, Seq<(Seq<char>, TypV)>, Map<VarV, PolyV>) {
    (link_vals(slot_list(t), slot_list(w)), Seq::empty(), bind_defs(d, slot_list(t), var_polys(slot_list(w))))
}

/// Linking `target` to the witness `wit`, as a division step.
fn link_step(builder: &IdealBuilder, ideal: &mut Ideal, target: &Var, wit: &Var)
    requires
        old(ideal).wf(),
        builder.ns.wf(),
        slots_ok(target.typ@),
        slots_ok(wit.typ@),
        slot_list(target@).len() == slot_list(wit@).len(),
    ensures
        div_done(*builder, *builder, *old(ideal), *final(ideal), link_run(old(ideal).defs(), target@, wit@)),
{
    let ghost i0 = *ideal;
    link_to_witness(ideal, target, wit);
    proof {
        let ts = slot_list(target@);
        let ws = slot_list(wit@);
        let vals = poly_vals(var_polys(ws));
        let run = link_run(i0.defs(), target@, wit@);
        let md = modulus() as int;
        assert forall|j: int, env: Env| 0 <= j < run.0.len()
            implies #[trigger] eval(ideal.gens()[i0.gens().len() + j], env) == run.0[j](env) % md by {
            assert(eval(ideal.gens()[i0.gens().len() + j], env) == (vals[j](env) - env(ts[j])) % md);
            assert(var_polys(ws)[j] == PolyV::Var(ws[j]));
            assert(vals[j](env) == (env(ws[j]) % modulus()) as int);
            lemma_mod_diff(env(ws[j]) as int, env(ts[j]) as int, md);
            lemma_mod_diff(env(ws[j]) as int % md, env(ts[j]) as int, md);
            vstd::arithmetic::div_mod::lemma_mod_twice(env(ws[j]) as int, md);
        }
        assert(views(ideal.var_order@) =~= views(i0.var_order@) + alloc_vars(builder.ns.next_sentinel(), builder_cnt(*builder), run.1));
    }
}

/// `i1` is `i0` with generators of the values `vals` appended, and nothing
/// else changed.
pub open spec fn gens_added(i0: Ideal, i1: Ideal, vals: Seq<spec_fn(Env) -> int>) -> bool {
    &&& i1.wf()
    &&& i1.pl == i0.pl
    &&& i1.vars == i0.vars
    &&& i1.var_order == i0.var_order
    &&& i1.gens().len() == i0.gens().len() + vals.len()
    &&& forall|j: int| 0 <= j < i0.gens().len() ==> #[trigger] i1.gens()[j] == i0.gens()[j]
    &&& forall|j: int, env: Env| 0 <= j < vals.len()
        ==> #[trigger] eval(i1.gens()[i0.gens().len() + j], env) == vals[j](env) % (modulus() as int)
}

/// The rows of a division by a divisor of declared degree zero, `b0`:
/// `a[k] - b0 * q[k]` for each coefficient of the dividend, then each
/// remainder slot on its own.
pub open spec fn const_rows(pa: Seq<PolyV>, b0: PolyV, qs: Seq<VarV>, rs: Seq<VarV>) -> Seq<spec_fn(Env) -> int> {
    Seq::new(pa.len(), |k: int| (|env: Env| eval(pa[k], env) - eval(b0, env) * env(qs[k])))
        + Seq::new(rs.len(), |j: int| (|env: Env| env(rs[j]) as int))
}

fn const_div_rows(ideal: &mut Ideal, a: &PolySource, b0: &Polynomial, q: &Var, r: &Var)
    requires
        old(ideal).wf(),
        slots_ok(q.typ@),
        slots_ok(r.typ@),
        slot_list(q@).len() == a.pv().len(),
    ensures
        gens_added(*old(ideal), *final(ideal), const_rows(a.pv(), b0@, slot_list(q@), slot_list(r@))),
{
    let ghost i0 = *ideal;
    let ghost md = modulus() as int;
    let ghost vals = const_rows(a.pv(), b0@, slot_list(q@), slot_list(r@));
    let ghost g0 = ideal.gens().len();
    let qs = q.slots();
    let rs = r.slots();
    let n = a.polys.len();
    let mut k: usize = 0;
    while k < n
        invariant
            k <= n,
            n == a.pv().len(),
            views(qs@) == slot_list(q@),
            views(rs@) == slot_list(r@),
            qs@.len() == n,
            vals == const_rows(a.pv(), b0@, slot_list(q@), slot_list(r@)),
            md == modulus() as int,
            g0 == i0.gens().len(),
            ideal.wf(),
            ideal.pl == i0.pl,
            ideal.vars == i0.vars,
            ideal.var_order == i0.var_order,
            ideal.gens().len() == g0 + k,
            forall|j: int| 0 <= j < g0 ==> #[trigger] ideal.gens()[j] == i0.gens()[j],
            forall|j: int, env: Env| 0 <= j < k ==> #[trigger] eval(ideal.gens()[g0 + j], env) == vals[j](env) % md,
        decreases n - k,
    {
        let g = a.polys[k].sub(&b0.mul(&Polynomial::var(&qs[k])));
        let ghost before = ideal.generating_set@;
        ideal.generating_set.push(g);
        proof {
            assert(ideal.gens() =~= pviews(before).push(g@));
            let qv = qs@[k as int]@;
            assert(qv == slot_list(q@)[k as int]);
            assert forall|env: Env| #[trigger] eval(g@, env) == vals[k as int](env) % md by {
                let x = eval(a.polys@[k as int]@, env) as int;
                let y = eval(b0@, env) as int;
                let w = env(qv) as int;
                assert(a.pv()[k as int] == a.polys@[k as int]@);
                vstd::arithmetic::div_mod::lemma_mul_mod_noop_right(y, w, md);
                lemma_mod_diff(x, y * w, md);
                vstd::arithmetic::div_mod::lemma_small_mod(x as nat, modulus());
            }
        }
        k = k + 1;
    }
    let mut j: usize = 0;
    while j < rs.len()
        invariant
            j <= rs@.len(),
            n == a.pv().len(),
            views(rs@) == slot_list(r@),
            vals == const_rows(a.pv(), b0@, slot_list(q@), slot_list(r@)),
            vals.len() == n + rs@.len(),
            md == modulus() as int,
            g0 == i0.gens().len(),
            ideal.wf(),
            ideal.pl == i0.pl,
            ideal.vars == i0.vars,
            ideal.var_order == i0.var_order,
            ideal.gens().len() == g0 + n + j,
            forall|t: int| 0 <= t < g0 ==> #[trigger] ideal.gens()[t] == i0.gens()[t],
            forall|t: int, env: Env| 0 <= t < n + j ==> #[trigger] eval(ideal.gens()[g0 + t], env) == vals[t](env) % md,
        decreases rs@.len() - j,
    {
        let g = Polynomial::var(&rs[j]);
        let ghost before = ideal.generating_set@;
        ideal.generating_set.push(g);
        proof {
            assert(ideal.gens() =~= pviews(before).push(g@));
            assert(rs@[j as int]@ == slot_list(r@)[j as int]);
            assert(ideal.gens()[g0 + (n + j)] == g@);
            assert forall|env: Env| #[trigger] eval(g@, env) == vals[n + j](env) % md by {
                assert(vals[n + j](env) == env(slot_list(r@)[j as int]) as int);
            }
        }
        j = j + 1;
    }
}

/// `sum_{i < n, i <= k, k - i <= ma} b[i] * q[k - i]`: the coefficient of
/// degree `k` of the product of the divisor and the quotient, from the
/// divisor's first `n` coefficients.
pub open spec fn conv(pb: Seq<PolyV>, qs: Seq<VarV>, ma: nat, k: nat, env: Env, n: nat) -> int
    decreases n,
{
    if n == 0 {
        0
    } else {
        let i = (n - 1) as nat;
        conv(pb, qs, ma, k, env, i) + if i <= k && k - i <= ma {
            eval(pb[i as int], env) * env(qs[k - i])
        } else {
            0
        }
    }
}

/// The identity rows `a = b * q + r` of a polynomial division, one per
/// coefficient of the product bound `ma + mb`: the dividend's coefficient
/// (zero past `ma`) minus the product's coefficient minus the remainder's
/// (zero past its bound).
pub open spec fn id_vals(pa: Seq<PolyV>, pb: Seq<PolyV>, qs: Seq<VarV>, rs: Seq<VarV>, ma: nat, mb: nat) -> Seq<spec_fn(Env) -> int> {
    Seq::new(ma + mb + 1, |k: int| (|env: Env|
        (if k <= ma { eval(pa[k], env) as int } else { 0 })
        - conv(pb, qs, ma, k as nat, env, if mb < k { mb + 1 } else { (k + 1) as nat })
        - (if k < rs.len() { env(rs[k]) as int } else { 0 })))
}

fn identity_rows(ideal: &mut Ideal, a: &PolySource, b: &PolySource, q: &Var, r: &Var, ma: usize, mb: usize)
    requires
        old(ideal).wf(),
        a.pv().len() == ma + 1,
        b.pv().len() == mb + 1,
        ma + mb < usize::MAX,
        slots_ok(q.typ@),
        slots_ok(r.typ@),
        slot_list(q@).len() == ma + 1,
    ensures
        gens_added(*old(ideal), *final(ideal), id_vals(a.pv(), b.pv(), slot_list(q@), slot_list(r@), ma as nat, mb as nat)),
{
    let ghost i0 = *ideal;
    let ghost md = modulus() as int;
    let ghost (pa, pb) = (a.pv(), b.pv());
    let ghost qv = slot_list(q@);
    let ghost rv = slot_list(r@);
    let ghost vals = id_vals(pa, pb, qv, rv, ma as nat, mb as nat);
    let ghost g0 = ideal.gens().len();
    let qs = q.slots();
    let rs = r.slots();
    let bound = ma + mb;
    let mut k: usize = 0;
    while k <= bound
        invariant
            k <= bound + 1,
            bound == ma + mb,
            bound < usize::MAX,
            pa == a.pv(),
            pb == b.pv(),
            pa.len() == ma + 1,
            pb.len() == mb + 1,
            views(qs@) == qv,
            views(rs@) == rv,
            qv == slot_list(q@),
            rv == slot_list(r@),
            qs@.len() == ma + 1,
            vals == id_vals(pa, pb, qv, rv, ma as nat, mb as nat),
            md == modulus() as int,
            g0 == i0.gens().len(),
            ideal.wf(),
            ideal.pl == i0.pl,
            ideal.vars == i0.vars,
            ideal.var_order == i0.var_order,
            ideal.gens().len() == g0 + k,
            forall|j: int| 0 <= j < g0 ==> #[trigger] ideal.gens()[j] == i0.gens()[j],
            forall|j: int, env: Env| 0 <= j < k ==> #[trigger] eval(ideal.gens()[g0 + j], env) == vals[j](env) % md,
        decreases bound + 1 - k,
    {
        let i_max = if mb < k { mb } else { k };
        let mut rhs = Polynomial::zero();
        let mut i: usize = 0;
        while i <= i_max
            invariant
                i <= i_max + 1,
                i_max <= k,
                i_max <= mb,
                k <= bound,
                bound == ma + mb,
                bound < usize::MAX,
                pb == b.pv(),
                pb.len() == mb + 1,
                views(qs@) == qv,
                qs@.len() == ma + 1,
                md == modulus() as int,
                forall|env: Env| #[trigger] eval(rhs@, env) == conv(pb, qv, ma as nat, k as nat, env, i as nat) % md,
            decreases i_max + 1 - i,
        {
            let j = k - i;
            if j <= ma {
                let term = b.polys[i].mul(&Polynomial::var(&qs[j]));
                let next = rhs.add(&term);
                proof {
                    assert forall|env: Env| #[trigger] eval(next@, env) == conv(pb, qv, ma as nat, k as nat, env, (i + 1) as nat) % md by {
                        let c = conv(pb, qv, ma as nat, k as nat, env, i as nat);
                        let y = eval(pb[i as int], env) as int;
                        let w = env(qv[j as int]) as int;
                        assert(b.polys@[i as int]@ == pb[i as int]);
                        assert(qs@[j as int]@ == qv[j as int]);
                        vstd::arithmetic::div_mod::lemma_mul_mod_noop_right(y, w, md);
                        vstd::arithmetic::div_mod::lemma_add_mod_noop(c, y * w, md);
                        vstd::arithmetic::div_mod::lemma_mod_twice(y * w, md);
                        vstd::arithmetic::div_mod::lemma_mod_twice(c, md);
                    }
                }
                rhs = next;
            } else {
                proof {
                    assert forall|env: Env| #[trigger] eval(rhs@, env) == conv(pb, qv, ma as nat, k as nat, env, (i + 1) as nat) % md by {
                        assert(conv(pb, qv, ma as nat, k as nat, env, (i + 1) as nat) == conv(pb, qv, ma as nat, k as nat, env, i as nat));
                    }
                }
            }
            i = i + 1;
        }
        let ghost cv = rhs;
        if k < rs.len() {
            let next = rhs.add(&Polynomial::var(&rs[k]));
            proof {
                assert forall|env: Env| #[trigger] eval(next@, env) == (conv(pb, qv, ma as nat, k as nat, env, (i_max + 1) as nat) + env(rv[k as int])) % md by {
                    let c = conv(pb, qv, ma as nat, k as nat, env, (i_max + 1) as nat);
                    let w = env(rv[k as int]) as int;
                    assert(rs@[k as int]@ == rv[k as int]);
                    vstd::arithmetic::div_mod::lemma_add_mod_noop(c, w, md);
                    vstd::arithmetic::div_mod::lemma_mod_twice(c, md);
                    vstd::arithmetic::div_mod::lemma_mod_twice(w, md);
                }
            }
            rhs = next;
        }
        let lhs = if k < a.polys.len() { a.polys[k].clone() } else { Polynomial::zero() };
        let g = lhs.sub(&rhs);
        let ghost before = ideal.generating_set@;
        ideal.generating_set.push(g);
        proof {
            assert(ideal.gens() =~= pviews(before).push(g@));
            assert forall|env: Env| #[trigger] eval(g@, env) == vals[k as int](env) % md by {
                let c = conv(pb, qv, ma as nat, k as nat, env, (i_max + 1) as nat);
                let rr: int = if k < rv.len() { env(rv[k as int]) as int } else { 0 };
                let x: int = if k <= ma { eval(pa[k as int], env) as int } else { 0 };
                assert(eval(rhs@, env) == (c + rr) % md);
                if k < a.polys.len() {
                    assert(a.polys@[k as int]@ == pa[k as int]);
                }
                assert(eval(lhs@, env) == x) by {
                    if k > ma {
                        vstd::arithmetic::div_mod::lemma_small_mod(0, modulus());
                    }
                }
                lemma_mod_diff(x, c + rr, md);
                vstd::arithmetic::div_mod::lemma_small_mod(x as nat, modulus());
                assert(vals[k as int](env) == x - c - rr);
            }
        }
        k = k + 1;
    }
}

/// The fresh scalars of level `t` of the degree chain: an indicator
/// `div_c`, an inverse `div_inv`, and below the top level a cumulative
/// indicator `div_s`.
pub open spec fn level_allocs(t: nat) -> Seq<(Seq<char>, TypV)> {
    if t == 0 {
        seq![("div_c"@, TypV::Base(ABase::Scalar)), ("div_inv"@, TypV::Base(ABase::Scalar))]
    } else {
        seq![("div_c"@, TypV::Base(ABase::Scalar)), ("div_inv"@, TypV::Base(ABase::Scalar)), ("div_s"@, TypV::Base(ABase::Scalar))]
    }
}

/// Level `t` of the degree chain, for the divisor coefficient `b[mb - t]`
/// (fresh variables from sentinel `s` with counters `cnt`), given the
/// cumulative indicator `above` of the level before; and its own cumulative
/// indicator. Its generators are `b[l] * inv - c` and `(1 - c) * b[l]`
/// (so `c` is one exactly when `b[l]` is nonzero), below the top
/// `s - (above + c - above * c)` (`s` is `above` or `c`), and for `l >= 1`
/// `(1 - s) * r[l - 1]` (the remainder loses degree `l - 1` when no divisor
/// coefficient from `l` up is nonzero).
pub open spec fn level_run(s: nat, cnt: spec_fn(Seq<char>) -> nat, d: Map<VarV, PolyV>, pb: Seq<PolyV>, mb: nat, rs: Seq<VarV>, t: nat, above: VarV)
    -> ((Seq<spec_fn(Env) -> int>, Seq<(Seq<char>, TypV)>, Map<VarV, PolyV>), VarV)
{
    let a = level_allocs(t);
    let c = alloc_var(s, cnt, a, 0);
    let inv = alloc_var(s, cnt, a, 1);
    let l = mb - t;
    let bd = pb[l];
    let sv = if t == 0 { c } else { alloc_var(s, cnt, a, 2) };
    let g1 = seq![
        |env: Env| eval(bd, env) * env(inv) - env(c),
        |env: Env| (1 - env(c)) * eval(bd, env),
    ];
    let g2 = if t == 0 {
        Seq::empty()
    } else {
        seq![|env: Env| env(sv) - (env(above) + env(c) - env(above) * env(c))]
    };
    let g3 = if l >= 1 {
        seq![|env: Env| (1 - env(sv)) * env(rs[l - 1])]
    } else {
        Seq::empty()
    };
    ((g1 + g2 + g3, a, d), sv)
}

/// The first `t` levels of the degree chain, and the cumulative indicator
/// of the last.
pub open spec fn chain_run(s: nat, cnt: spec_fn(Seq<char>) -> nat, d: Map<VarV, PolyV>, pb: Seq<PolyV>, mb: nat, rs: Seq<VarV>, t: nat)
    -> ((Seq<spec_fn(Env) -> int>, Seq<(Seq<char>, TypV)>, Map<VarV, PolyV>), VarV)
    decreases t,
{
    if t == 0 {
        ((Seq::empty(), Seq::empty(), d), arbitrary())
    } else {
        let (prev, above) = chain_run(s, cnt, d, pb, mb, rs, (t - 1) as nat);
        let u = prev.1.len();
        let (lr, sv) = level_run((s - u) as nat, shift_cnt(cnt, prev.1), d, pb, mb, rs, (t - 1) as nat, above);
        (then_run(prev, lr), sv)
    }
}

/// The whole degree chain, levels `mb` down to `0`, closed by `s_0 - 1`:
/// some divisor coefficient is nonzero.
pub open spec fn chain_full(s: nat, cnt: spec_fn(Seq<char>) -> nat, d: Map<VarV, PolyV>, pb: Seq<PolyV>, mb: nat, rs: Seq<VarV>)
    -> (Seq<spec_fn(Env) -> int>, Seq<(Seq<char>, TypV)>, Map<VarV, PolyV>)
{
    let (cr, s0v) = chain_run(s, cnt, d, pb, mb, rs, mb + 1);
    then_run(cr, (seq![|env: Env| env(s0v) - 1], Seq::empty(), d))
}

/// The fresh variables of fewer levels come first.
proof fn lemma_chain_prefix(s: nat, cnt: spec_fn(Seq<char>) -> nat, d: Map<VarV, PolyV>, pb: Seq<PolyV>, mb: nat, rs: Seq<VarV>, t: nat, u: nat)
    requires
        t <= u,
    ensures
        exists|x: Seq<(Seq<char>, TypV)>| #[trigger] (chain_run(s, cnt, d, pb, mb, rs, t).0.1 + x) == chain_run(s, cnt, d, pb, mb, rs, u).0.1,
    decreases u,
{
    let a = chain_run(s, cnt, d, pb, mb, rs, t).0.1;
    if t == u {
        assert(a + Seq::empty() =~= a);
    } else {
        lemma_chain_prefix(s, cnt, d, pb, mb, rs, t, (u - 1) as nat);
        let x = choose|x: Seq<(Seq<char>, TypV)>| #[trigger] (a + x) == chain_run(s, cnt, d, pb, mb, rs, (u - 1) as nat).0.1;
        let (prev, above) = chain_run(s, cnt, d, pb, mb, rs, (u - 1) as nat);
        let lr = level_run((s - prev.1.len()) as nat, shift_cnt(cnt, prev.1), d, pb, mb, rs, (u - 1) as nat, above).0;
        assert(a + (x + lr.1) =~= chain_run(s, cnt, d, pb, mb, rs, u).0.1);
    }
}

/// One level of the degree chain (see [`level_run`]).
fn degree_level(
    builder: &mut IdealBuilder,
    ideal: &mut Ideal,
    b: &PolySource,
    rs: &Vec<Var>,
    mb: usize,
    t: usize,
    s_above: &Option<Var>,
    Ghost(above): Ghost<VarV>,
) -> (sv: Var)
    requires
        old(ideal).wf(),
        old(builder).ns.wf(),
        b.pv().len() == mb + 1,
        t <= mb,
        views(rs@).len() == mb,
        t == 0 <==> s_above is None,
        s_above matches Some(v) ==> v@ == above,
        room(old(builder).ns.next_sentinel(), builder_cnt(*old(builder)), level_allocs(t as nat)),
    ensures
        div_done(*old(builder), *final(builder), *old(ideal), *final(ideal),
            level_run(old(builder).ns.next_sentinel(), builder_cnt(*old(builder)), old(ideal).defs(), b.pv(), mb as nat, views(rs@), t as nat, above).0),
        sv@ == level_run(old(builder).ns.next_sentinel(), builder_cnt(*old(builder)), old(ideal).defs(), b.pv(), mb as nat, views(rs@), t as nat, above).1,
{
    let ghost b0 = *builder;
    let ghost i0 = *ideal;
    let ghost s0 = builder.ns.next_sentinel();
    let ghost cnt = builder_cnt(*builder);
    let ghost md = modulus() as int;
    let ghost pb = b.pv();
    let ghost rv = views(rs@);
    let ghost la = level_allocs(t as nat);
    let ghost lr = level_run(s0, cnt, i0.defs(), pb, mb as nat, rv, t as nat, above);
    let ghost g0 = i0.gens().len();
    proof {
        reveal_with_fuel(key_count, 4);
        assert(la.take(0) =~= Seq::<(Seq<char>, TypV)>::empty());
        assert(la.take(1) =~= seq![la[0]]);
        assert(la.take(2) =~= seq![la[0], la[1]]);
        assert(seq![la[0]].drop_last() =~= Seq::<(Seq<char>, TypV)>::empty());
        assert(seq![la[0], la[1]].drop_last() =~= seq![la[0]]);
        assert(cnt("div_c"@) + key_count(la, "div_c"@) <= usize::MAX);
        assert(cnt("div_inv"@) + key_count(la, "div_inv"@) <= usize::MAX);
        assert(cnt("div_s"@) + key_count(la, "div_s"@) <= usize::MAX);
        if t == 0 {
            assert(la.drop_last() =~= seq![la[0]]);
        } else {
            assert(la.drop_last() =~= seq![la[0], la[1]]);
            assert(seq![la[0], la[1]].drop_last() =~= seq![la[0]]);
        }
    }
    let one = Polynomial::lit(&Fe::one());
    let c_name = builder.ns.next_name("div_c");
    let c_var = builder.sentinel_var(&c_name, ATyp::scalar(), ideal);
    let c_poly = Polynomial::var(&c_var);
    let l = mb - t;
    let b_d = &b.polys[l];
    let inv_name = builder.ns.next_name("div_inv");
    let inv_var = builder.sentinel_var(&inv_name, ATyp::scalar(), ideal);
    let inv_poly = Polynomial::var(&inv_var);
    let ghost cv = alloc_var(s0, cnt, la, 0);
    let ghost iv = alloc_var(s0, cnt, la, 1);
    assert(c_var@ == cv);
    assert(inv_var@ == iv);
    assert(b_d@ == pb[l as int]);
    let g1 = b_d.mul(&inv_poly).sub(&c_poly);
    let g2 = one.sub(&c_poly).mul(b_d);
    let ghost gs0 = ideal.generating_set@;
    ideal.generating_set.push(g1);
    ideal.generating_set.push(g2);
    proof {
        assert(ideal.gens() =~= pviews(gs0).push(g1@).push(g2@));
        assert forall|env: Env| #[trigger] eval(g1@, env) == lr.0.0[0](env) % md by {
            let x = eval(pb[l as int], env) as int;
            let w = env(iv) as int;
            let cc = env(cv) as int;
            vstd::arithmetic::div_mod::lemma_mul_mod_noop_right(x, w, md);
            lemma_mod_diff(x * w, cc, md);
        }
        assert forall|env: Env| #[trigger] eval(g2@, env) == lr.0.0[1](env) % md by {
            let x = eval(pb[l as int], env) as int;
            let cc = env(cv) as int;
            vstd::arithmetic::div_mod::lemma_small_mod(1, modulus());
            lemma_mod_diff(1, cc, md);
            vstd::arithmetic::div_mod::lemma_mul_mod_noop_left(1 - cc, x, md);
        }
    }
    let s_d = match s_above {
        Some(sa) => {
            let s_name = builder.ns.next_name("div_s");
            let s_var = builder.sentinel_var(&s_name, ATyp::scalar(), ideal);
            let ghost sv = alloc_var(s0, cnt, la, 2);
            assert(s_var@ == sv);
            let s_poly = Polynomial::var(&s_var);
            let sa_poly = Polynomial::var(sa);
            let g3 = s_poly.sub(&sa_poly.add(&c_poly).sub(&sa_poly.mul(&c_poly)));
            let ghost gs1 = ideal.generating_set@;
            ideal.generating_set.push(g3);
            proof {
                assert(ideal.gens() =~= pviews(gs1).push(g3@));
                assert forall|env: Env| #[trigger] eval(g3@, env) == lr.0.0[2](env) % md by {
                    let x = env(sv) as int;
                    let y = env(above) as int;
                    let cc = env(cv) as int;
                    vstd::arithmetic::div_mod::lemma_add_mod_noop(y, cc, md);
                    vstd::arithmetic::div_mod::lemma_mul_mod_noop(y, cc, md);
                    lemma_mod_diff(y + cc, y * cc, md);
                    lemma_mod_diff(x, y + cc - y * cc, md);
                }
            }
            s_var
        },
        None => c_var.clone(),
    };
    let ghost sv = lr.1;
    assert(s_d@ == sv);
    let ghost mid = ideal.gens().len();
    if l >= 1 {
        let r_poly = Polynomial::var(&rs[l - 1]);
        let g4 = one.sub(&Polynomial::var(&s_d)).mul(&r_poly);
        let ghost gs2 = ideal.generating_set@;
        ideal.generating_set.push(g4);
        proof {
            assert(ideal.gens() =~= pviews(gs2).push(g4@));
            assert(rs@[l - 1]@ == rv[l - 1]);
            assert forall|env: Env| #[trigger] eval(g4@, env) == lr.0.0[mid - g0](env) % md by {
                let x = env(sv) as int;
                let w = env(rv[l - 1]) as int;
                vstd::arithmetic::div_mod::lemma_small_mod(1, modulus());
                lemma_mod_diff(1, x, md);
                vstd::arithmetic::div_mod::lemma_mul_mod_noop(1 - x, w, md);
                vstd::arithmetic::div_mod::lemma_mod_twice(1 - x, md);
            }
        }
    }
    proof {
        assert(ideal.gens().len() == g0 + lr.0.0.len());
        assert forall|j: int, env: Env| 0 <= j < lr.0.0.len()
            implies #[trigger] eval(ideal.gens()[g0 + j], env) == lr.0.0[j](env) % md by {
        }
        assert(views(ideal.var_order@) =~= views(i0.var_order@) + alloc_vars(s0, cnt, la));
        assert forall|k: Seq<char>| #[trigger] builder.ns.count(k) == b0.ns.count(k) + key_count(la, k) by {
        }
    }
    s_d
}

/// The degree chain of a division by a divisor of declared degree `mb`,
/// over the remainder slots `r` (see [`chain_full`]): it ties the
/// remainder's degree below the divisor's actual degree.
fn emit_degree_chain(builder: &mut IdealBuilder, ideal: &mut Ideal, b: &PolySource, r: &Var, mb: usize)
    requires
        old(ideal).wf(),
        old(builder).ns.wf(),
        b.pv().len() == mb + 1,
        mb < usize::MAX,
        slots_ok(r.typ@),
        slot_list(r@).len() == mb,
        room(old(builder).ns.next_sentinel(), builder_cnt(*old(builder)),
            chain_full(old(builder).ns.next_sentinel(), builder_cnt(*old(builder)), old(ideal).defs(), b.pv(), mb as nat, slot_list(r@)).1),
    ensures
        div_done(*old(builder), *final(builder), *old(ideal), *final(ideal),
            chain_full(old(builder).ns.next_sentinel(), builder_cnt(*old(builder)), old(ideal).defs(), b.pv(), mb as nat, slot_list(r@))),
{
    let ghost b0 = *builder;
    let ghost i0 = *ideal;
    let ghost s0 = builder.ns.next_sentinel();
    let ghost cnt = builder_cnt(*builder);
    let ghost d = ideal.defs();
    let ghost pb = b.pv();
    let ghost md = modulus() as int;
    let rs = r.slots();
    let ghost rv = views(rs@);
    let ghost full = chain_run(s0, cnt, d, pb, mb as nat, rv, (mb + 1) as nat).0.1;
    proof {
        assert(chain_full(s0, cnt, d, pb, mb as nat, rv).1 =~= full);
        assert(views(ideal.var_order@) =~= views(i0.var_order@) + alloc_vars(s0, cnt, Seq::empty()));
        assert forall|k: Seq<char>| #[trigger] builder.ns.count(k) == b0.ns.count(k) + key_count(Seq::empty(), k) by {}
    }
    let one = Polynomial::lit(&Fe::one());
    let mut s_above: Option<Var> = None;
    let mut t: usize = 0;
    while t <= mb
        invariant
            t <= mb + 1,
            mb < usize::MAX,
            b.pv() == pb,
            pb.len() == mb + 1,
            rv == views(rs@),
            rv == slot_list(r@),
            rv.len() == mb,
            s0 == b0.ns.next_sentinel(),
            cnt == builder_cnt(b0),
            d == i0.defs(),
            i0.wf(),
            b0.ns.wf(),
            full == chain_run(s0, cnt, d, pb, mb as nat, rv, (mb + 1) as nat).0.1,
            room(s0, cnt, full),
            t == 0 <==> s_above is None,
            s_above matches Some(v) ==> v@ == chain_run(s0, cnt, d, pb, mb as nat, rv, t as nat).1,
            div_done(b0, *builder, i0, *ideal, chain_run(s0, cnt, d, pb, mb as nat, rv, t as nat).0),
        decreases mb + 1 - t,
    {
        let ghost (prev, above) = chain_run(s0, cnt, d, pb, mb as nat, rv, t as nat);
        let ghost u = prev.1.len();
        let ghost bm = *builder;
        let ghost im = *ideal;
        let ghost lr = level_run((s0 - u) as nat, shift_cnt(cnt, prev.1), d, pb, mb as nat, rv, t as nat, above);
        proof {
            lemma_chain_prefix(s0, cnt, d, pb, mb as nat, rv, (t + 1) as nat, (mb + 1) as nat);
            let x = choose|x: Seq<(Seq<char>, TypV)>| #[trigger] (chain_run(s0, cnt, d, pb, mb as nat, rv, (t + 1) as nat).0.1 + x) == full;
            lemma_room_split(s0, cnt, chain_run(s0, cnt, d, pb, mb as nat, rv, (t + 1) as nat).0.1, x);
            assert(chain_run(s0, cnt, d, pb, mb as nat, rv, (t + 1) as nat).0.1 == prev.1 + lr.0.1);
            lemma_room_split(s0, cnt, prev.1, lr.0.1);
            assert(builder_cnt(bm) =~= shift_cnt(cnt, prev.1));
            assert(im.defs() == d);
        }
        let sv = degree_level(builder, ideal, b, &rs, mb, t, &s_above, Ghost(above));
        proof {
            lemma_div_compose(b0, bm, *builder, i0, im, *ideal, prev, lr.0);
        }
        s_above = Some(sv);
        t = t + 1;
    }
    let s_zero = s_above.unwrap();
    let g = Polynomial::var(&s_zero).sub(&one);
    let ghost im = *ideal;
    let ghost gs = ideal.generating_set@;
    ideal.generating_set.push(g);
    proof {
        let (cr, s0v) = chain_run(s0, cnt, d, pb, mb as nat, rv, (mb + 1) as nat);
        let last = (seq![|env: Env| env(s0v) - 1], Seq::<(Seq<char>, TypV)>::empty(), d);
        assert(ideal.gens() =~= pviews(gs).push(g@));
        assert forall|env: Env| #[trigger] eval(g@, env) == last.0[0](env) % md by {
            vstd::arithmetic::div_mod::lemma_small_mod(1, modulus());
            lemma_mod_diff(env(s0v) as int, 1, md);
        }
        lemma_gens_only(*builder, im, *ideal, last.0);
        lemma_div_compose(b0, *builder, *builder, i0, im, *ideal, cr, last);
    }
}

/// Whether the divisor's leading coefficient resolves, under `d`, to a
/// nonzero constant; the divisor then has its declared degree and the
/// remainder's shape alone bounds its degree.
pub open spec fn lead_known_nonzero(d: Map<VarV, PolyV>, lead: PolyV) -> bool {
    resolve(lead, d) matches Some(c) && c != 0
}

/// What dividing `(Uni(ma), pa)` by `(Uni(mb), pb)` into `t` adds (fresh
/// variables from sentinel `s0` with counters `cnt`, definitions `d`):
/// a quotient witness `q` of the dividend's bound and a remainder witness
/// `r`. With `mb == 0`, `r` has the target's shape for a remainder and
/// `Uni(0)` for a quotient; the divisor is kept nonzero, each row
/// `a[k] - b[0] * q[k]` and each remainder slot on its own are added.
/// Otherwise `r` is `Uni(mb - 1)`, the identity rows `a = b * q + r` are
/// added, and the degree chain unless the leading coefficient is known
/// nonzero. Either way the target is linked to `r` for a remainder and to
/// `q` for a quotient.
pub open spec fn poly_div_run(s0: nat, cnt: spec_fn(Seq<char>) -> nat, d: Map<VarV, PolyV>, t: VarV, ma: nat, pa: Seq<PolyV>, mb: nat, pb: Seq<PolyV>, is_rem: bool)
    -> (Seq<spec_fn(Env) -> int>, Seq<(Seq<char>, TypV)>, Map<VarV, PolyV>)
{
    let rt = if mb == 0 {
        if is_rem { t.typ } else { TypV::Uni(0) }
    } else {
        TypV::Uni((mb - 1) as nat)
    };
    let a = wit_allocs(ma, rt);
    let q = alloc_var(s0, cnt, a, 0);
    let r = alloc_var(s0, cnt, a, 1);
    let w = if is_rem { r } else { q };
    let s1 = (s0 - 2) as nat;
    let c1 = shift_cnt(cnt, a);
    let start = (Seq::empty(), a, d);
    let body = if mb == 0 {
        then_run(nz_run(s1, c1, d, pb[0]), (const_rows(pa, pb[0], slot_list(q), slot_list(r)), Seq::empty(), d))
    } else {
        let rows = (id_vals(pa, pb, slot_list(q), slot_list(r), ma, mb), Seq::empty(), d);
        if lead_known_nonzero(d, pb[mb as int]) {
            rows
        } else {
            then_run(rows, chain_full(s1, c1, d, pb, mb, slot_list(r)))
        }
    };
    then_run(then_run(start, body), link_run(d, t, w))
}

/// What [`div_rem_poly`] needs: dividend and divisor of their shapes, a
/// product bound that fits, a target with as many slots as the witness it
/// is linked to, and room for the fresh variables.
pub open spec fn poly_div_ok(s0: nat, cnt: spec_fn(Seq<char>) -> nat, d: Map<VarV, PolyV>, t: VarV, ma: nat, pa: Seq<PolyV>, mb: nat, pb: Seq<PolyV>, is_rem: bool) -> bool {
    &&& pa.len() == ma + 1
    &&& pb.len() == mb + 1
    &&& ma + mb < usize::MAX
    &&& slots_ok(t.typ)
    &&& slot_list(t).len() == if is_rem { if mb == 0 { slot_list(t).len() } else { mb } } else { ma + 1 }
    &&& room(s0, cnt, poly_div_run(s0, cnt, d, t, ma, pa, mb, pb, is_rem).1)
}

/// Univariate polynomial division of `a` (`Uni(ma)`) by `b` (`Uni(mb)`)
/// into `target`: the quotient for a division, the remainder for a
/// remainder (see [`poly_div_run`]).
pub fn div_rem_poly(builder: &mut IdealBuilder, ideal: &mut Ideal, target: &Var, a: &PolySource, b: &PolySource, is_rem: bool)
    requires
        old(ideal).wf(),
        old(builder).ns.wf(),
        a.typ@ matches TypV::Uni(_),
        b.typ@ matches TypV::Uni(_),
        poly_div_ok(old(builder).ns.next_sentinel(), builder_cnt(*old(builder)), old(ideal).defs(), target@,
            a.typ@->Uni_0, a.pv(), b.typ@->Uni_0, b.pv(), is_rem),
    ensures
        div_done(*old(builder), *final(builder), *old(ideal), *final(ideal),
            poly_div_run(old(builder).ns.next_sentinel(), builder_cnt(*old(builder)), old(ideal).defs(), target@,
                a.typ@->Uni_0, a.pv(), b.typ@->Uni_0, b.pv(), is_rem)),
{
    let ma = match &a.typ {
        ATyp::Uni(m) => *m,
        _ => {
            assert(false);
            0
        },
    };
    let mb = match &b.typ {
        ATyp::Uni(m) => *m,
        _ => {
            assert(false);
            0
        },
    };
    if mb == 0 {
        div_by_constant_shape(builder, ideal, target, a, b, ma, is_rem);
    } else {
        div_by_poly_shape(builder, ideal, target, a, b, ma, mb, is_rem);
    }
}

/// [`div_rem_poly`] for a divisor of declared degree zero.
fn div_by_constant_shape(builder: &mut IdealBuilder, ideal: &mut Ideal, target: &Var, a: &PolySource, b: &PolySource, ma: usize, is_rem: bool)
    requires
        old(ideal).wf(),
        old(builder).ns.wf(),
        a.typ@ == TypV::Uni(ma as nat),
        b.typ@ == TypV::Uni(0),
        poly_div_ok(old(builder).ns.next_sentinel(), builder_cnt(*old(builder)), old(ideal).defs(), target@,
            ma as nat, a.pv(), 0, b.pv(), is_rem),
    ensures
        div_done(*old(builder), *final(builder), *old(ideal), *final(ideal),
            poly_div_run(old(builder).ns.next_sentinel(), builder_cnt(*old(builder)), old(ideal).defs(), target@,
                ma as nat, a.pv(), 0, b.pv(), is_rem)),
{
    let ghost b0 = *builder;
    let ghost i0 = *ideal;
    let ghost s0 = builder.ns.next_sentinel();
    let ghost cnt = builder_cnt(*builder);
    let ghost d = ideal.defs();
    let ghost (pa, pb) = (a.pv(), b.pv());
    let ghost run = poly_div_run(s0, cnt, d, target@, ma as nat, pa, 0, pb, is_rem);
    let r_typ = if is_rem { target.typ.clone() } else { ATyp::Uni(0) };
    let ghost wa = wit_allocs(ma as nat, r_typ@);
    let ghost body_allocs = run.1.subrange(2, run.1.len() as int);
    proof {
        assert(run.1 =~= wa + body_allocs);
        lemma_room_split(s0, cnt, wa, body_allocs);
    }
    let (q_wit, r_wit) = alloc_div_witness_pair(builder, ideal, ATyp::Uni(ma), r_typ);
    let ghost b1 = *builder;
    let ghost i1 = *ideal;
    let ghost start = (Seq::<spec_fn(Env) -> int>::empty(), wa, d);
    proof {
        assert(builder_cnt(b1) =~= shift_cnt(cnt, wa));
        assert(slots_ok(q_wit.typ@));
        assert(slots_ok(r_wit.typ@));
        if is_rem {
            lemma_slot_count(target@, r_wit@);
        }
    }
    let b_poly = &b.polys[0];
    let ghost nz = nz_run((s0 - 2) as nat, shift_cnt(cnt, wa), d, pb[0]);
    proof {
        assert(b_poly@ == pb[0]);
        assert(body_allocs =~= nz.1);
    }
    enforce_nonzero(builder, ideal, b_poly);
    let ghost b2 = *builder;
    let ghost i2 = *ideal;
    const_div_rows(ideal, a, b_poly, &q_wit, &r_wit);
    let ghost i3 = *ideal;
    let ghost rows = (const_rows(pa, pb[0], slot_list(q_wit@), slot_list(r_wit@)), Seq::<(Seq<char>, TypV)>::empty(), d);
    proof {
        lemma_gens_only(b2, i2, i3, rows.0);
        lemma_div_compose(b1, b2, b2, i1, i2, i3, nz, rows);
        lemma_div_compose(b0, b1, b2, i0, i1, i3, start, then_run(nz, rows));
    }
    let wit = if is_rem { &r_wit } else { &q_wit };
    link_step(builder, ideal, target, wit);
    proof {
        lemma_div_compose(b0, b2, b2, i0, i3, *ideal, then_run(start, then_run(nz, rows)), link_run(d, target@, wit@));
    }
}

/// [`div_rem_poly`] for a divisor of positive declared degree.
fn div_by_poly_shape(builder: &mut IdealBuilder, ideal: &mut Ideal, target: &Var, a: &PolySource, b: &PolySource, ma: usize, mb: usize, is_rem: bool)
    requires
        old(ideal).wf(),
        old(builder).ns.wf(),
        a.typ@ == TypV::Uni(ma as nat),
        b.typ@ == TypV::Uni(mb as nat),
        mb > 0,
        poly_div_ok(old(builder).ns.next_sentinel(), builder_cnt(*old(builder)), old(ideal).defs(), target@,
            ma as nat, a.pv(), mb as nat, b.pv(), is_rem),
    ensures
        div_done(*old(builder), *final(builder), *old(ideal), *final(ideal),
            poly_div_run(old(builder).ns.next_sentinel(), builder_cnt(*old(builder)), old(ideal).defs(), target@,
                ma as nat, a.pv(), mb as nat, b.pv(), is_rem)),
{
    let ghost b0 = *builder;
    let ghost i0 = *ideal;
    let ghost s0 = builder.ns.next_sentinel();
    let ghost cnt = builder_cnt(*builder);
    let ghost d = ideal.defs();
    let ghost (pa, pb) = (a.pv(), b.pv());
    let ghost run = poly_div_run(s0, cnt, d, target@, ma as nat, pa, mb as nat, pb, is_rem);
    let r_typ = ATyp::Uni(mb - 1);
    let ghost wa = wit_allocs(ma as nat, r_typ@);
    let ghost body_allocs = run.1.subrange(2, run.1.len() as int);
    proof {
        assert(run.1 =~= wa + body_allocs);
        lemma_room_split(s0, cnt, wa, body_allocs);
    }
    let (q_wit, r_wit) = alloc_div_witness_pair(builder, ideal, ATyp::Uni(ma), r_typ);
    let ghost b1 = *builder;
    let ghost i1 = *ideal;
    let ghost start = (Seq::<spec_fn(Env) -> int>::empty(), wa, d);
    proof {
        assert(builder_cnt(b1) =~= shift_cnt(cnt, wa));
        assert(slots_ok(q_wit.typ@));
        assert(slots_ok(r_wit.typ@));
    }
    identity_rows(ideal, a, b, &q_wit, &r_wit, ma, mb);
    let ghost i2 = *ideal;
    let ghost rows = (id_vals(pa, pb, slot_list(q_wit@), slot_list(r_wit@), ma as nat, mb as nat), Seq::<(Seq<char>, TypV)>::empty(), d);
    proof {
        lemma_gens_only(b1, i1, i2, rows.0);
    }
    let lead = resolved_constant(&b.polys[mb], ideal);
    let known = match lead {
        Some(c) => !c.is_zero(),
        None => false,
    };
    proof {
        assert(b.polys@[mb as int]@ == pb[mb as int]);
        assert(known == lead_known_nonzero(d, pb[mb as int]));
    }
    if !known {
        let ghost ch = chain_full((s0 - 2) as nat, shift_cnt(cnt, wa), d, pb, mb as nat, slot_list(r_wit@));
        proof {
            assert(body_allocs =~= ch.1);
        }
        emit_degree_chain(builder, ideal, b, &r_wit, mb);
        proof {
            lemma_div_compose(b1, b1, *builder, i1, i2, *ideal, rows, ch);
            lemma_div_compose(b0, b1, *builder, i0, i1, *ideal, start, then_run(rows, ch));
        }
    } else {
        proof {
            lemma_div_compose(b0, b1, b1, i0, i1, i2, start, rows);
        }
    }
    let ghost b3 = *builder;
    let ghost i3 = *ideal;
    let wit = if is_rem { &r_wit } else { &q_wit };
    link_step(builder, ideal, target, wit);
    proof {
        let body = if known { rows } else { then_run(rows, chain_full((s0 - 2) as nat, shift_cnt(cnt, wa), d, pb, mb as nat, slot_list(r_wit@))) };
        lemma_div_compose(b0, b3, b3, i0, i3, *ideal, then_run(start, body), link_run(d, target@, wit@));
    }
}

/// A scalar-like shape: a field element or a bounded index.
pub open spec fn scalar_like(t: TypV) -> bool {
    t matches TypV::Base(ABase::Scalar) || t matches TypV::Base(ABase::Fin(_))
}

/// A polynomial shape: univariate, multilinear or multivariate.
pub open spec fn poly_like(t: TypV) -> bool {
    t is Uni || t is Mle || t is VPoly
}

/// What dividing `(ta, pa)` by `(tb, pb)` into `t` adds, for operands that
/// are not vectors: polynomial division for two univariate polynomials;
/// otherwise the denominator is kept nonzero and the quotient taken slot by
/// slot, a polynomial's slots each over the scalar divisor.
pub open spec fn dr_leaf_run(s0: nat, cnt: spec_fn(Seq<char>) -> nat, d: Map<VarV, PolyV>, t: VarV, ta: TypV, pa: Seq<PolyV>, tb: TypV, pb: Seq<PolyV>, is_rem: bool)
    -> (Seq<spec_fn(Env) -> int>, Seq<(Seq<char>, TypV)>, Map<VarV, PolyV>)
{
    if ta is Uni && tb is Uni {
        poly_div_run(s0, cnt, d, t, ta->Uni_0, pa, tb->Uni_0, pb, is_rem)
    } else {
        let den = if ta is Base { pb } else { Seq::new(plen(ta), |i: int| pb[0]) };
        then_run(nz_run(s0, cnt, d, pb[0]), (sw_div_vals(slot_list(t), pa, den), Seq::empty(), d))
    }
}

/// What dividing non-vector operands needs: two univariate polynomials
/// (see [`poly_div_ok`]), a polynomial over a scalar-like divisor, or two
/// base values; no remainder but of polynomials; a target with one slot per
/// dividend slot; room for the fresh inverse.
pub open spec fn dr_leaf_ok(s0: nat, cnt: spec_fn(Seq<char>) -> nat, d: Map<VarV, PolyV>, t: VarV, ta: TypV, pa: Seq<PolyV>, tb: TypV, pb: Seq<PolyV>, is_rem: bool) -> bool {
    if ta is Uni && tb is Uni {
        poly_div_ok(s0, cnt, d, t, ta->Uni_0, pa, tb->Uni_0, pb, is_rem)
    } else {
        &&& (poly_like(ta) && scalar_like(tb)) || (ta is Base && tb is Base)
        &&& !is_rem
        &&& pa.len() == plen(ta)
        &&& pb.len() == 1
        &&& plen(ta) <= usize::MAX
        &&& slots_ok(t.typ)
        &&& slot_list(t).len() == pa.len()
        &&& room(s0, cnt, nz_run(s0, cnt, d, pb[0]).1)
    }
}

/// Division or remainder of non-vector operands (see [`dr_leaf_run`]).
fn div_rem_leaf(builder: &mut IdealBuilder, ideal: &mut Ideal, target: &Var, a: &PolySource, b: &PolySource, is_rem: bool)
    requires
        old(ideal).wf(),
        old(builder).ns.wf(),
        dr_leaf_ok(old(builder).ns.next_sentinel(), builder_cnt(*old(builder)), old(ideal).defs(), target@, a.typ@, a.pv(), b.typ@, b.pv(), is_rem),
    ensures
        div_done(*old(builder), *final(builder), *old(ideal), *final(ideal),
            dr_leaf_run(old(builder).ns.next_sentinel(), builder_cnt(*old(builder)), old(ideal).defs(), target@, a.typ@, a.pv(), b.typ@, b.pv(), is_rem)),
{
    let ghost b0 = *builder;
    let ghost i0 = *ideal;
    let ghost s0 = builder.ns.next_sentinel();
    let ghost cnt = builder_cnt(*builder);
    let ghost d = ideal.defs();
    let ghost (ta, pa, tb, pb) = (a.typ@, a.pv(), b.typ@, b.pv());
    let both_uni = match (&a.typ, &b.typ) {
        (ATyp::Uni(_), ATyp::Uni(_)) => true,
        _ => false,
    };
    if both_uni {
        div_rem_poly(builder, ideal, target, a, b, is_rem);
        return;
    }
    let a_base = match &a.typ {
        ATyp::Base(_) => true,
        _ => false,
    };
    let ghost nz = nz_run(s0, cnt, d, pb[0]);
    assert(b.polys@[0]@ == pb[0]);
    enforce_nonzero(builder, ideal, &b.polys[0]);
    let ghost b1 = *builder;
    let ghost i1 = *ideal;
    let ghost den = if ta is Base { pb } else { Seq::new(plen(ta), |i: int| pb[0]) };
    if a_base {
        slot_wise_div(ideal, target, &a.polys, &b.polys);
    } else {
        let b_broadcast = b.broadcast_scalar_to(&a.typ);
        assert(b_broadcast.pv() =~= den);
        slot_wise_div(ideal, target, &a.polys, &b_broadcast.polys);
    }
    proof {
        let rows = (sw_div_vals(slot_list(target@), pa, den), Seq::<(Seq<char>, TypV)>::empty(), d);
        lemma_gens_only(b1, i1, *ideal, rows.0);
        lemma_div_compose(b0, b1, b1, i0, i1, *ideal, nz, rows);
    }
}

/// How a vector division pairs elements: both operands element by element
/// (`0`), the dividend's elements over the whole divisor (`1`), or the
/// whole dividend over the divisor's elements (`2`).
pub open spec fn pairing(ta: TypV, tb: TypV) -> nat {
    match (ta, tb) {
        (TypV::Vec(_, na), TypV::Vec(_, nb)) => if na == nb { 0 } else { 1 },
        (TypV::Vec(_, _), _) => 1,
        _ => 2,
    }
}

/// What dividing `(ta, pa)` by `(tb, pb)` into `t` adds: vectors element
/// by element (a vector over a non-vector divides each element; a
/// non-vector over a vector is divided by each element), other operands
/// by [`dr_leaf_run`].
pub open spec fn dr_run(s0: nat, cnt: spec_fn(Seq<char>) -> nat, d: Map<VarV, PolyV>, t: VarV, ta: TypV, pa: Seq<PolyV>, tb: TypV, pb: Seq<PolyV>, is_rem: bool)
    -> (Seq<spec_fn(Env) -> int>, Seq<(Seq<char>, TypV)>, Map<VarV, PolyV>)
    decreases ta, tb, 0nat,
{
    match (ta, tb) {
        (TypV::Vec(ea, na), TypV::Vec(eb, nb)) => if na == nb {
            dr_vec(s0, cnt, d, t, pa, pb, is_rem, 0, *ea, *eb, na)
        } else {
            dr_vec(s0, cnt, d, t, pa, pb, is_rem, 1, *ea, tb, na)
        },
        (TypV::Vec(ea, na), _) => dr_vec(s0, cnt, d, t, pa, pb, is_rem, 1, *ea, tb, na),
        (_, TypV::Vec(eb, nb)) => dr_vec(s0, cnt, d, t, pa, pb, is_rem, 2, ta, *eb, nb),
        _ => dr_leaf_run(s0, cnt, d, t, ta, pa, tb, pb, is_rem),
    }
}

/// The dividend's part for element `k`: its slice of shape `xa` unless the
/// whole dividend divides each element.
pub open spec fn part_a(mode: nat, pa: Seq<PolyV>, xa: TypV, k: nat) -> Seq<PolyV> {
    if mode == 2 { pa } else { slice(pa, xa, k) }
}

/// The divisor's part for element `k`.
pub open spec fn part_b(mode: nat, pb: Seq<PolyV>, xb: TypV, k: nat) -> Seq<PolyV> {
    if mode == 1 { pb } else { slice(pb, xb, k) }
}

/// The first `i` elements of a vector division, paired by `mode`, with
/// element shapes `xa` and `xb`, each after those before it.
pub open spec fn dr_vec(s0: nat, cnt: spec_fn(Seq<char>) -> nat, d: Map<VarV, PolyV>, t: VarV, pa: Seq<PolyV>, pb: Seq<PolyV>, is_rem: bool, mode: nat, xa: TypV, xb: TypV, i: nat)
    -> (Seq<spec_fn(Env) -> int>, Seq<(Seq<char>, TypV)>, Map<VarV, PolyV>)
    decreases xa, xb, i,
{
    if i == 0 {
        (Seq::empty(), Seq::empty(), d)
    } else {
        let k = (i - 1) as nat;
        let prev = dr_vec(s0, cnt, d, t, pa, pb, is_rem, mode, xa, xb, k);
        let u = prev.1.len();
        let cur = dr_run((s0 - u) as nat, shift_cnt(cnt, prev.1), prev.2, child(t, k, *t.typ->Vec_0), xa, part_a(mode, pa, xa, k), xb, part_b(mode, pb, xb, k), is_rem);
        then_run(prev, cur)
    }
}

/// What a division needs: operands with one polynomial per slot, a vector
/// target of at least as many elements as the division runs over, no
/// remainder of a non-vector by a vector, and at the leaves
/// [`dr_leaf_ok`].
pub open spec fn dr_ok(s0: nat, cnt: spec_fn(Seq<char>) -> nat, d: Map<VarV, PolyV>, t: VarV, ta: TypV, pa: Seq<PolyV>, tb: TypV, pb: Seq<PolyV>, is_rem: bool) -> bool
    decreases ta, tb, 0nat,
{
    &&& pa.len() == plen(ta)
    &&& pb.len() == plen(tb)
    &&& match (ta, tb) {
        (TypV::Vec(ea, na), TypV::Vec(eb, nb)) => {
            &&& t.typ matches TypV::Vec(_, nt) && na <= nt
            &&& if na == nb {
                dr_vec_ok(s0, cnt, d, t, pa, pb, is_rem, 0, *ea, *eb, na)
            } else {
                dr_vec_ok(s0, cnt, d, t, pa, pb, is_rem, 1, *ea, tb, na)
            }
        },
        (TypV::Vec(ea, na), _) => {
            &&& t.typ matches TypV::Vec(_, nt) && na <= nt
            &&& dr_vec_ok(s0, cnt, d, t, pa, pb, is_rem, 1, *ea, tb, na)
        },
        (_, TypV::Vec(eb, nb)) => {
            &&& !is_rem
            &&& t.typ matches TypV::Vec(_, nt) && nb <= nt
            &&& dr_vec_ok(s0, cnt, d, t, pa, pb, is_rem, 2, ta, *eb, nb)
        },
        _ => dr_leaf_ok(s0, cnt, d, t, ta, pa, tb, pb, is_rem),
    }
}

pub open spec fn dr_vec_ok(s0: nat, cnt: spec_fn(Seq<char>) -> nat, d: Map<VarV, PolyV>, t: VarV, pa: Seq<PolyV>, pb: Seq<PolyV>, is_rem: bool, mode: nat, xa: TypV, xb: TypV, i: nat) -> bool
    decreases xa, xb, i,
{
    if i == 0 {
        true
    } else {
        let k = (i - 1) as nat;
        let prev = dr_vec(s0, cnt, d, t, pa, pb, is_rem, mode, xa, xb, k);
        let u = prev.1.len();
        &&& dr_vec_ok(s0, cnt, d, t, pa, pb, is_rem, mode, xa, xb, k)
        &&& u <= s0
        &&& dr_ok((s0 - u) as nat, shift_cnt(cnt, prev.1), prev.2, child(t, k, *t.typ->Vec_0), xa, part_a(mode, pa, xa, k), xb, part_b(mode, pb, xb, k), is_rem)
    }
}

proof fn lemma_dr_vec_ok_at(s0: nat, cnt: spec_fn(Seq<char>) -> nat, d: Map<VarV, PolyV>, t: VarV, pa: Seq<PolyV>, pb: Seq<PolyV>, is_rem: bool, mode: nat, xa: TypV, xb: TypV, n: nat, k: nat)
    requires
        dr_vec_ok(s0, cnt, d, t, pa, pb, is_rem, mode, xa, xb, n),
        k < n,
    ensures
        dr_vec_ok(s0, cnt, d, t, pa, pb, is_rem, mode, xa, xb, k + 1),
    decreases n,
{
    if k + 1 < n {
        lemma_dr_vec_ok_at(s0, cnt, d, t, pa, pb, is_rem, mode, xa, xb, (n - 1) as nat, k);
    }
}

/// Division (`is_rem` false) or remainder of `a` by `b` into `target`,
/// element by element through vectors (see [`dr_run`]).
pub fn div_rem_op_inner(builder: &mut IdealBuilder, ideal: &mut Ideal, target: &Var, a: &PolySource, b: &PolySource, is_rem: bool)
    requires
        old(ideal).wf(),
        old(builder).ns.wf(),
        dr_ok(old(builder).ns.next_sentinel(), builder_cnt(*old(builder)), old(ideal).defs(), target@, a.typ@, a.pv(), b.typ@, b.pv(), is_rem),
    ensures
        div_done(*old(builder), *final(builder), *old(ideal), *final(ideal),
            dr_run(old(builder).ns.next_sentinel(), builder_cnt(*old(builder)), old(ideal).defs(), target@, a.typ@, a.pv(), b.typ@, b.pv(), is_rem)),
    decreases a.typ@, b.typ@,
{
    let ghost b0 = *builder;
    let ghost i0 = *ideal;
    let ghost s0 = builder.ns.next_sentinel();
    let ghost cnt = builder_cnt(*builder);
    let ghost d = ideal.defs();
    let ghost (ta, pa, tb, pb) = (a.typ@, a.pv(), b.typ@, b.pv());
    let ghost t = target@;
    let (mode, n): (u8, usize) = match (&a.typ, &b.typ) {
        (ATyp::Vec(_, na), ATyp::Vec(_, nb)) => if *na == *nb { (0, *na) } else { (1, *na) },
        (ATyp::Vec(_, na), _) => (1, *na),
        (_, ATyp::Vec(_, nb)) => (2, *nb),
        _ => {
            div_rem_leaf(builder, ideal, target, a, b, is_rem);
            return;
        },
    };
    let ghost xa = if mode == 2 { ta } else { *ta->Vec_0 };
    let ghost xb = if mode == 1 { tb } else { *tb->Vec_0 };
    let ghost e = *t.typ->Vec_0;
    proof {
        assert(mode as nat == pairing(ta, tb));
        assert(dr_run(s0, cnt, d, t, ta, pa, tb, pb, is_rem) == dr_vec(s0, cnt, d, t, pa, pb, is_rem, mode as nat, xa, xb, n as nat));
        assert(dr_vec_ok(s0, cnt, d, t, pa, pb, is_rem, mode as nat, xa, xb, n as nat));
        assert(views(ideal.var_order@) =~= views(i0.var_order@) + alloc_vars(s0, cnt, Seq::empty()));
        assert forall|k: Seq<char>| #[trigger] builder.ns.count(k) == b0.ns.count(k) + key_count(Seq::empty(), k) by {}
        assert(ideal.gens().len() == i0.gens().len() + 0);
    }
    let mut i: usize = 0;
    while i < n
        invariant
            i <= n,
            t == target@,
            ta == a.typ@,
            tb == b.typ@,
            pa == a.pv(),
            pb == b.pv(),
            mode as nat == pairing(ta, tb),
            mode <= 2,
            mode != 2 ==> (ta matches TypV::Vec(_, na) && n == na && xa == *ta->Vec_0),
            mode == 2 ==> xa == ta && !(ta is Vec),
            mode != 1 ==> (tb matches TypV::Vec(_, nb) && n == nb && xb == *tb->Vec_0),
            mode == 1 ==> xb == tb,
            pa.len() == plen(ta),
            pb.len() == plen(tb),
            t.typ matches TypV::Vec(_, nt) && n <= nt,
            e == *t.typ->Vec_0,
            s0 == b0.ns.next_sentinel(),
            cnt == builder_cnt(b0),
            d == i0.defs(),
            dr_vec_ok(s0, cnt, d, t, pa, pb, is_rem, mode as nat, xa, xb, n as nat),
            div_done(b0, *builder, i0, *ideal, dr_vec(s0, cnt, d, t, pa, pb, is_rem, mode as nat, xa, xb, i as nat)),
        decreases n - i,
    {
        let ghost k = i as nat;
        let ghost prev = dr_vec(s0, cnt, d, t, pa, pb, is_rem, mode as nat, xa, xb, k);
        let ghost u = prev.1.len();
        proof {
            lemma_dr_vec_ok_at(s0, cnt, d, t, pa, pb, is_rem, mode as nat, xa, xb, n as nat, k);
            if mode != 2 {
                crate::arith::lemma_elem_len_pub(pa, xa, ta->Vec_1, k);
            }
            if mode != 1 {
                crate::arith::lemma_elem_len_pub(pb, xb, tb->Vec_1, k);
            }
        }
        let t_i = target.with_index(i).unwrap();
        assert(t_i@ == child(t, k, e));
        let ghost bm = *builder;
        let ghost im = *ideal;
        proof {
            assert(builder_cnt(bm) =~= shift_cnt(cnt, prev.1));
        }
        if mode == 0 {
            let a_elem = a.at_index(i).unwrap();
            let b_elem = b.at_index(i).unwrap();
            div_rem_op_inner(builder, ideal, &t_i, &a_elem, &b_elem, is_rem);
        } else if mode == 1 {
            let a_elem = a.at_index(i).unwrap();
            div_rem_op_inner(builder, ideal, &t_i, &a_elem, b, is_rem);
        } else {
            let b_elem = b.at_index(i).unwrap();
            div_rem_op_inner(builder, ideal, &t_i, a, &b_elem, is_rem);
        }
        proof {
            let cur = dr_run((s0 - u) as nat, shift_cnt(cnt, prev.1), prev.2, child(t, k, e), xa, part_a(mode as nat, pa, xa, k), xb, part_b(mode as nat, pb, xb, k), is_rem);
            lemma_div_compose(b0, bm, *builder, i0, im, *ideal, prev, cur);
        }
        i = i + 1;
    }
}

/// Division (`is_rem` false) or remainder of operand `a` by operand `b`
/// into `target` (see [`div_rem_op_inner`]).
pub fn div_rem_op(builder: &mut IdealBuilder, ideal: &mut Ideal, target: &Var, a: &Operand, b: &Operand, is_rem: bool)
    requires
        old(ideal).wf(),
        old(builder).ns.wf(),
        operand_ok(*a, *old(ideal)),
        operand_ok(*b, *old(ideal)),
        dr_ok(old(builder).ns.next_sentinel(), builder_cnt(*old(builder)), old(ideal).defs(), target@,
            op_typ(*a), operand_polys(*a, *old(ideal)), op_typ(*b), operand_polys(*b, *old(ideal)), is_rem),
    ensures
        div_done(*old(builder), *final(builder), *old(ideal), *final(ideal),
            dr_run(old(builder).ns.next_sentinel(), builder_cnt(*old(builder)), old(ideal).defs(), target@,
                op_typ(*a), operand_polys(*a, *old(ideal)), op_typ(*b), operand_polys(*b, *old(ideal)), is_rem)),
{
    let a_src = PolySource::from_ref_vars(ideal, a);
    let b_src = PolySource::from_ref_vars(ideal, b);
    div_rem_op_inner(builder, ideal, target, &a_src, &b_src, is_rem);
}

/// Every value of `vals` vanishes at `env`, in the field.
pub open spec fn vanish(vals: Seq<spec_fn(Env) -> int>, env: Env) -> bool {
    forall|j: int| 0 <= j < vals.len() ==> #[trigger] vals[j](env) % (modulus() as int) == 0
}

proof fn lemma_vanish_split(v1: Seq<spec_fn(Env) -> int>, v2: Seq<spec_fn(Env) -> int>, env: Env)
    requires
        vanish(v1 + v2, env),
    ensures
        vanish(v1, env),
        vanish(v2, env),
{
    assert forall|j: int| 0 <= j < v1.len() implies #[trigger] v1[j](env) % (modulus() as int) == 0 by {
        assert((v1 + v2)[j] == v1[j]);
    }
    assert forall|j: int| 0 <= j < v2.len() implies #[trigger] v2[j](env) % (modulus() as int) == 0 by {
        assert((v1 + v2)[v1.len() + j] == v2[j]);
    }
}

/// Where the generators a division step added all vanish, the values of its
/// run vanish.
proof fn lemma_done_vanish(
    b0: IdealBuilder,
    b1: IdealBuilder,
    i0: Ideal,
    i1: Ideal,
    run: (Seq<spec_fn(Env) -> int>, Seq<(Seq<char>, TypV)>, Map<VarV, PolyV>),
    env: Env,
)
    requires
        div_done(b0, b1, i0, i1, run),
        forall|k: int| i0.gens().len() <= k < i1.gens().len() ==> #[trigger] eval(i1.gens()[k], env) == 0,
    ensures
        vanish(run.0, env),
{
    assert forall|j: int| 0 <= j < run.0.len() implies #[trigger] run.0[j](env) % (modulus() as int) == 0 by {
        let k = i0.gens().len() + j;
        assert(eval(i1.gens()[k], env) == 0);
    }
}

/// Where the values of keeping `p` nonzero vanish and the definitions hold,
/// `p` is nonzero.
proof fn lemma_nz_vals(s0: nat, cnt: spec_fn(Seq<char>) -> nat, d: Map<VarV, PolyV>, p: PolyV, env: Env)
    requires
        vanish(nz_run(s0, cnt, d, p).0, env),
        consistent(d, env),
    ensures
        eval(p, env) != 0,
{
    let m = modulus() as int;
    let run = nz_run(s0, cnt, d, p);
    match resolve(p, d) {
        Some(c) => {
            if c == 0 {
                assert(run.0[0](env) == 1);
                vstd::arithmetic::div_mod::lemma_small_mod(1, modulus());
            } else {
                lemma_resolve_sound(p, d, env);
            }
        },
        None => {
            let inv = alloc_var(s0, cnt, run.1, 0);
            let x = eval(p, env) as int;
            assert(run.0[0](env) == x * env(inv) - 1);
            if x == 0 {
                assert(x * env(inv) == 0);
                assert((-1int) % m == m - 1) by {
                    vstd::arithmetic::div_mod::lemma_mod_add_multiples_vanish(-1, m);
                    vstd::arithmetic::div_mod::lemma_small_mod((m - 1) as nat, m as nat);
                }
            }
        },
    }
}

/// Law: wherever the generators that keep a denominator nonzero vanish,
/// and the definitions hold, the denominator is nonzero.
pub proof fn lemma_nonzero_enforced(b0: IdealBuilder, b1: IdealBuilder, i0: Ideal, i1: Ideal, p: PolyV, env: Env)
    requires
        div_done(b0, b1, i0, i1, nz_run(b0.ns.next_sentinel(), builder_cnt(b0), i0.defs(), p)),
        consistent(i0.defs(), env),
        forall|k: int| i0.gens().len() <= k < i1.gens().len() ==> #[trigger] eval(i1.gens()[k], env) == 0,
    ensures
        eval(p, env) != 0,
{
    lemma_done_vanish(b0, b1, i0, i1, nz_run(b0.ns.next_sentinel(), builder_cnt(b0), i0.defs(), p), env);
    lemma_nz_vals(b0.ns.next_sentinel(), builder_cnt(b0), i0.defs(), p, env);
}

/// Law: wherever the generators that dividing non-polynomial-division
/// operands adds all vanish, and the definitions hold, the divisor is
/// nonzero and each slot of the target times the divisor is the dividend's
/// slot: the target is the quotient.
pub proof fn lemma_slot_division(b0: IdealBuilder, b1: IdealBuilder, i0: Ideal, i1: Ideal, t: VarV, ta: TypV, pa: Seq<PolyV>, tb: TypV, pb: Seq<PolyV>, env: Env)
    requires
        !(ta is Uni && tb is Uni),
        dr_leaf_ok(b0.ns.next_sentinel(), builder_cnt(b0), i0.defs(), t, ta, pa, tb, pb, false),
        div_done(b0, b1, i0, i1, dr_leaf_run(b0.ns.next_sentinel(), builder_cnt(b0), i0.defs(), t, ta, pa, tb, pb, false)),
        consistent(i0.defs(), env),
        forall|k: int| i0.gens().len() <= k < i1.gens().len() ==> #[trigger] eval(i1.gens()[k], env) == 0,
    ensures
        eval(pb[0], env) != 0,
        forall|j: int| 0 <= j < slot_list(t).len()
            ==> (eval(pa[j], env) - eval(pb[0], env) * env(#[trigger] slot_list(t)[j])) % (modulus() as int) == 0,
{
    let s0 = b0.ns.next_sentinel();
    let cnt = builder_cnt(b0);
    let d = i0.defs();
    let run = dr_leaf_run(s0, cnt, d, t, ta, pa, tb, pb, false);
    let nz = nz_run(s0, cnt, d, pb[0]);
    let den = if ta is Base { pb } else { Seq::new(plen(ta), |i: int| pb[0]) };
    let sw = sw_div_vals(slot_list(t), pa, den);
    lemma_done_vanish(b0, b1, i0, i1, run, env);
    assert(run.0 == nz.0 + sw);
    lemma_vanish_split(nz.0, sw, env);
    lemma_nz_vals(s0, cnt, d, pb[0], env);
    assert forall|j: int| 0 <= j < slot_list(t).len()
        implies (eval(pa[j], env) - eval(pb[0], env) * env(#[trigger] slot_list(t)[j])) % (modulus() as int) == 0 by {
        assert(sw[j](env) == eval(pa[j], env) - eval(den[j], env) * env(slot_list(t)[j]));
        assert(den[j] == pb[0]);
    }
}

/// `x ≡ 0` and `y ≡ 0` give `x + y ≡ 0`, `x * z ≡ 0` and `-x ≡ 0`.
proof fn lemma_zero_mod(x: int, y: int, z: int, m: int)
    requires
        m > 0,
        x % m == 0,
        y % m == 0,
    ensures
        (x + y) % m == 0,
        (x * z) % m == 0,
        (z * x) % m == 0,
        (-x) % m == 0,
        (x - y) % m == 0,
{
    vstd::arithmetic::div_mod::lemma_add_mod_noop(x, y, m);
    vstd::arithmetic::div_mod::lemma_mul_mod_noop_left(x, z, m);
    vstd::arithmetic::div_mod::lemma_mul_mod_noop_right(z, x, m);
    vstd::arithmetic::div_mod::lemma_sub_mod_noop(0, x, m);
    vstd::arithmetic::div_mod::lemma_sub_mod_noop(x, y, m);
    vstd::arithmetic::div_mod::lemma_small_mod(0, m as nat);
}

/// One level of the degree chain: with its generators vanishing, a zero
/// divisor coefficient and (below the top) a zero indicator above give a
/// zero indicator, and then a zero remainder coefficient one below.
proof fn lemma_level_zero(s: nat, cnt: spec_fn(Seq<char>) -> nat, d: Map<VarV, PolyV>, pb: Seq<PolyV>, mb: nat, rs: Seq<VarV>, t: nat, above: VarV, env: Env)
    requires
        t <= mb,
        pb.len() == mb + 1,
        rs.len() == mb,
        vanish(level_run(s, cnt, d, pb, mb, rs, t, above).0.0, env),
        eval(pb[mb - t], env) == 0,
        t > 0 ==> (env(above) as int) % (modulus() as int) == 0,
    ensures
        (env(level_run(s, cnt, d, pb, mb, rs, t, above).1) as int) % (modulus() as int) == 0,
        mb - t >= 1 ==> (env(rs[mb - t - 1]) as int) % (modulus() as int) == 0,
{
    let m = modulus() as int;
    let lr = level_run(s, cnt, d, pb, mb, rs, t, above);
    let a = level_allocs(t);
    let c = env(alloc_var(s, cnt, a, 0)) as int;
    let inv = env(alloc_var(s, cnt, a, 1)) as int;
    let l = mb - t;
    let vals = lr.0.0;
    assert(vals[0](env) == 0 * inv - c);
    assert(vals[0](env) % m == 0);
    assert(c % m == 0) by {
        lemma_zero_mod(-c, 0, 0, m);
        vstd::arithmetic::div_mod::lemma_small_mod(0, modulus());
    }
    let sv = env(lr.1) as int;
    if t > 0 {
        let y = env(above) as int;
        assert(vals[2](env) == sv - (y + c - y * c));
        assert(vals[2](env) % m == 0);
        lemma_zero_mod(y, c, c, m);
        lemma_zero_mod(y + c, y * c, 0, m);
        assert((y + c - y * c) % m == 0);
        assert((sv - (y + c - y * c)) + (y + c - y * c) == sv);
        lemma_zero_mod(sv - (y + c - y * c), y + c - y * c, 0, m);
    }
    assert(sv % m == 0);
    if l >= 1 {
        let j = if t == 0 { 2int } else { 3int };
        let r = env(rs[l - 1]) as int;
        assert(vals[j](env) == (1 - sv) * r);
        assert(vals[j](env) % m == 0);
        lemma_zero_mod(sv, 0, r, m);
        assert((1 - sv) * r == r - sv * r) by (nonlinear_arith);
        assert(r == (r - sv * r) + sv * r);
        lemma_zero_mod(r - sv * r, sv * r, 0, m);
    }
}

/// All divisor coefficients from `l` up to `mb` are zero.
pub open spec fn zero_from(pb: Seq<PolyV>, env: Env, l: int, mb: nat) -> bool {
    forall|j: int| l <= j <= mb ==> #[trigger] eval(pb[j], env) == 0
}

proof fn lemma_chain_zero(s: nat, cnt: spec_fn(Seq<char>) -> nat, d: Map<VarV, PolyV>, pb: Seq<PolyV>, mb: nat, rs: Seq<VarV>, t: nat, env: Env)
    requires
        1 <= t <= mb + 1,
        pb.len() == mb + 1,
        rs.len() == mb,
        vanish(chain_run(s, cnt, d, pb, mb, rs, t).0.0, env),
    ensures
        zero_from(pb, env, mb - t + 1, mb) ==> (env(chain_run(s, cnt, d, pb, mb, rs, t).1) as int) % (modulus() as int) == 0,
        forall|l: int| mb - t + 1 <= l <= mb && l >= 1 && #[trigger] zero_from(pb, env, l, mb)
            ==> (env(rs[l - 1]) as int) % (modulus() as int) == 0,
    decreases t,
{
    let (prev, above) = chain_run(s, cnt, d, pb, mb, rs, (t - 1) as nat);
    let u = prev.1.len();
    let lr = level_run((s - u) as nat, shift_cnt(cnt, prev.1), d, pb, mb, rs, (t - 1) as nat, above);
    assert(chain_run(s, cnt, d, pb, mb, rs, t).0.0 == prev.0 + lr.0.0);
    lemma_vanish_split(prev.0, lr.0.0, env);
    let l0 = mb - t + 1;
    if t > 1 {
        lemma_chain_zero(s, cnt, d, pb, mb, rs, (t - 1) as nat, env);
    }
    if zero_from(pb, env, l0, mb) {
        if t > 1 {
            assert(zero_from(pb, env, l0 + 1, mb));
        }
        assert(eval(pb[l0], env) == 0);
        lemma_level_zero((s - u) as nat, shift_cnt(cnt, prev.1), d, pb, mb, rs, (t - 1) as nat, above, env);
    }
    assert forall|l: int| mb - t + 1 <= l <= mb && l >= 1 && #[trigger] zero_from(pb, env, l, mb)
        implies (env(rs[l - 1]) as int) % (modulus() as int) == 0 by {
        if l == l0 {
            assert(eval(pb[l0], env) == 0);
            if t > 1 {
                assert(zero_from(pb, env, l0 + 1, mb));
            }
            lemma_level_zero((s - u) as nat, shift_cnt(cnt, prev.1), d, pb, mb, rs, (t - 1) as nat, above, env);
        }
    }
}

/// Wherever the degree chain's values vanish, some divisor coefficient is
/// nonzero, and each remainder coefficient `r[l - 1]` whose degree reaches
/// past the divisor's actual degree (all divisor coefficients from `l` up
/// zero) is zero.
pub proof fn lemma_degree_chain(s: nat, cnt: spec_fn(Seq<char>) -> nat, d: Map<VarV, PolyV>, pb: Seq<PolyV>, mb: nat, rs: Seq<VarV>, env: Env)
    requires
        pb.len() == mb + 1,
        rs.len() == mb,
        vanish(chain_full(s, cnt, d, pb, mb, rs).0, env),
    ensures
        exists|j: int| 0 <= j <= mb && #[trigger] eval(pb[j], env) != 0,
        forall|l: int| 1 <= l <= mb && #[trigger] zero_from(pb, env, l, mb)
            ==> (env(rs[l - 1]) as int) % (modulus() as int) == 0,
{
    let m = modulus() as int;
    let (cr, s0v) = chain_run(s, cnt, d, pb, mb, rs, mb + 1);
    let last = seq![|env: Env| env(s0v) - 1];
    assert(chain_full(s, cnt, d, pb, mb, rs).0 == cr.0 + last);
    lemma_vanish_split(cr.0, last, env);
    lemma_chain_zero(s, cnt, d, pb, mb, rs, mb + 1, env);
    if !(exists|j: int| 0 <= j <= mb && #[trigger] eval(pb[j], env) != 0) {
        assert(zero_from(pb, env, 0, mb));
        let x = env(s0v) as int;
        assert(x % m == 0);
        assert(last[0](env) == x - 1);
        assert((x - 1) % m == 0);
        lemma_zero_mod(x, x - 1, 0, m);
        assert((x - (x - 1)) % m == 0);
        vstd::arithmetic::div_mod::lemma_small_mod(1, modulus());
    }
}

/// The quotient witness of a polynomial division starting from sentinel
/// `s0` with counters `cnt`.
pub open spec fn quot_var(s0: nat, cnt: spec_fn(Seq<char>) -> nat, ma: nat, rt: TypV) -> VarV {
    alloc_var(s0, cnt, wit_allocs(ma, rt), 0)
}

/// The remainder witness of a polynomial division.
pub open spec fn rem_var(s0: nat, cnt: spec_fn(Seq<char>) -> nat, ma: nat, rt: TypV) -> VarV {
    alloc_var(s0, cnt, wit_allocs(ma, rt), 1)
}

/// Law: wherever the generators that dividing `a` (`Uni(ma)`) by `b`
/// (`Uni(mb)`, `mb > 0`) adds all vanish, and the definitions hold,
/// `a = b * q + r` coefficient by coefficient for the quotient witness `q`
/// and the remainder witness `r`, the divisor is not zero, the remainder's
/// degree is below the divisor's actual degree (every `r[l - 1]` with all
/// divisor coefficients from `l` up zero is zero), and the target's slots
/// take the values of the quotient's (division) or the remainder's
/// (remainder) slots.
pub proof fn lemma_poly_division(
    b0: IdealBuilder,
    b1: IdealBuilder,
    i0: Ideal,
    i1: Ideal,
    t: VarV,
    ma: nat,
    pa: Seq<PolyV>,
    mb: nat,
    pb: Seq<PolyV>,
    is_rem: bool,
    env: Env,
)
    requires
        mb > 0,
        pa.len() == ma + 1,
        pb.len() == mb + 1,
        div_done(b0, b1, i0, i1, poly_div_run(b0.ns.next_sentinel(), builder_cnt(b0), i0.defs(), t, ma, pa, mb, pb, is_rem)),
        consistent(i0.defs(), env),
        forall|k: int| i0.gens().len() <= k < i1.gens().len() ==> #[trigger] eval(i1.gens()[k], env) == 0,
    ensures
        ({
            let s0 = b0.ns.next_sentinel();
            let cnt = builder_cnt(b0);
            let q = slot_list(quot_var(s0, cnt, ma, TypV::Uni((mb - 1) as nat)));
            let r = slot_list(rem_var(s0, cnt, ma, TypV::Uni((mb - 1) as nat)));
            let w = if is_rem { r } else { q };
            &&& forall|k: int| 0 <= k <= ma + mb ==> #[trigger] id_vals(pa, pb, q, r, ma, mb)[k](env) % (modulus() as int) == 0
            &&& exists|j: int| 0 <= j <= mb && #[trigger] eval(pb[j], env) != 0
            &&& forall|l: int| 1 <= l <= mb && #[trigger] zero_from(pb, env, l, mb)
                ==> (env(r[l - 1]) as int) % (modulus() as int) == 0
            &&& forall|j: int| 0 <= j < slot_list(t).len()
                ==> (env(w[j]) - env(#[trigger] slot_list(t)[j])) % (modulus() as int) == 0
        }),
{
    let m = modulus() as int;
    let s0 = b0.ns.next_sentinel();
    let cnt = builder_cnt(b0);
    let d = i0.defs();
    let rt = TypV::Uni((mb - 1) as nat);
    let wa = wit_allocs(ma, rt);
    let qv = quot_var(s0, cnt, ma, rt);
    let rv = rem_var(s0, cnt, ma, rt);
    let q = slot_list(qv);
    let r = slot_list(rv);
    let w = if is_rem { rv } else { qv };
    let run = poly_div_run(s0, cnt, d, t, ma, pa, mb, pb, is_rem);
    lemma_done_vanish(b0, b1, i0, i1, run, env);
    let start = (Seq::<spec_fn(Env) -> int>::empty(), wa, d);
    let rows = (id_vals(pa, pb, q, r, ma, mb), Seq::<(Seq<char>, TypV)>::empty(), d);
    let ch = chain_full((s0 - 2) as nat, shift_cnt(cnt, wa), d, pb, mb, r);
    let known = lead_known_nonzero(d, pb[mb as int]);
    let body = if known { rows } else { then_run(rows, ch) };
    let link = link_run(d, t, w);
    assert(run.0 == (start.0 + body.0) + link.0);
    lemma_vanish_split(start.0 + body.0, link.0, env);
    assert(start.0 + body.0 =~= body.0);
    if known {
        lemma_resolve_sound(pb[mb as int], d, env);
        assert(eval(pb[mb as int], env) != 0);
        assert forall|l: int| 1 <= l <= mb && #[trigger] zero_from(pb, env, l, mb)
            implies (env(r[l - 1]) as int) % m == 0 by {
            assert(eval(pb[mb as int], env) == 0);
        }
    } else {
        lemma_vanish_split(rows.0, ch.0, env);
        lemma_degree_chain((s0 - 2) as nat, shift_cnt(cnt, wa), d, pb, mb, r, env);
    }
    assert forall|k: int| 0 <= k <= ma + mb implies #[trigger] id_vals(pa, pb, q, r, ma, mb)[k](env) % m == 0 by {
        assert(rows.0[k] == id_vals(pa, pb, q, r, ma, mb)[k]);
    }
    assert forall|j: int| 0 <= j < slot_list(t).len()
        implies (env(slot_list(w)[j]) - env(#[trigger] slot_list(t)[j])) % m == 0 by {
        assert(link.0[j](env) == env(slot_list(w)[j]) - env(slot_list(t)[j]));
    }
}

/// The shape of the quotient (`is_rem` false) or remainder of `ta` by
/// `tb`: a quotient keeps the dividend's shape (of each element, through
/// vectors); a remainder of `Uni(ma)` by `Uni(mb)`, `mb > 0`, is
/// `Uni(mb - 1)`. `None` where neither applies.
pub open spec fn div_shape(ta: TypV, tb: TypV, is_rem: bool) -> Option<TypV>
    decreases ta, tb,
{
    match (ta, tb) {
        (TypV::Vec(ea, na), TypV::Vec(eb, nb)) => if na == nb {
            match div_shape(*ea, *eb, is_rem) {
                Some(x) => Some(TypV::Vec(Box::new(x), na)),
                None => None,
            }
        } else {
            match div_shape(*ea, tb, is_rem) {
                Some(x) => Some(TypV::Vec(Box::new(x), na)),
                None => None,
            }
        },
        (TypV::Vec(ea, na), _) => match div_shape(*ea, tb, is_rem) {
            Some(x) => Some(TypV::Vec(Box::new(x), na)),
            None => None,
        },
        (_, TypV::Vec(eb, nb)) => if is_rem {
            None
        } else {
            match div_shape(ta, *eb, is_rem) {
                Some(x) => Some(TypV::Vec(Box::new(x), nb)),
                None => None,
            }
        },
        (TypV::Uni(_), TypV::Uni(mb)) => if is_rem {
            if mb > 0 { Some(TypV::Uni((mb - 1) as nat)) } else { None }
        } else {
            Some(ta)
        },
        _ => if is_rem {
            None
        } else if (poly_like(ta) && scalar_like(tb)) || (ta is Base && tb is Base) {
            Some(ta)
        } else {
            None
        },
    }
}

/// The shape of one division step (see [`div_shape`]).
pub fn div_shape_of(ta: &ATyp, tb: &ATyp, is_rem: bool) -> (r: Option<ATyp>)
    ensures
        r is Some <==> div_shape(ta@, tb@, is_rem) is Some,
        r matches Some(x) ==> x@ == div_shape(ta@, tb@, is_rem)->0,
    decreases ta@, tb@,
{
    match (ta, tb) {
        (ATyp::Vec(ea, na), ATyp::Vec(eb, nb)) => {
            let x = if *na == *nb { div_shape_of(ea, eb, is_rem) } else { div_shape_of(ea, tb, is_rem) };
            match x {
                Some(x) => Some(ATyp::Vec(Box::new(x), *na)),
                None => None,
            }
        },
        (ATyp::Vec(ea, na), _) => match div_shape_of(ea, tb, is_rem) {
            Some(x) => Some(ATyp::Vec(Box::new(x), *na)),
            None => None,
        },
        (_, ATyp::Vec(eb, nb)) => {
            if is_rem {
                return None;
            }
            match div_shape_of(ta, eb, is_rem) {
                Some(x) => Some(ATyp::Vec(Box::new(x), *nb)),
                None => None,
            }
        },
        (ATyp::Uni(_), ATyp::Uni(mb)) => {
            if is_rem {
                if *mb > 0 { Some(ATyp::Uni(*mb - 1)) } else { None }
            } else {
                Some(ta.clone())
            }
        },
        _ => {
            if is_rem {
                return None;
            }
            let a_poly = match ta {
                ATyp::Uni(_) | ATyp::Mle(_) | ATyp::VPoly(_, _) => true,
                _ => false,
            };
            let b_scalar = match tb {
                ATyp::Base(ABase::Scalar) | ATyp::Base(ABase::Fin(_)) => true,
                _ => false,
            };
            let both_base = match (ta, tb) {
                (ATyp::Base(_), ATyp::Base(_)) => true,
                _ => false,
            };
            if (a_poly && b_scalar) || both_base {
                Some(ta.clone())
            } else {
                None
            }
        },
    }
}

/// The name under which the accumulators of a division fold are counted.
pub open spec fn div_fold_key(is_rem: bool) -> Seq<char> {
    if is_rem { "reduce_rem_acc"@ } else { "reduce_div_acc"@ }
}

fn div_fold_key_str(is_rem: bool) -> (r: &'static str)
    ensures
        r@ == div_fold_key(is_rem),
{
    if is_rem { "reduce_rem_acc" } else { "reduce_div_acc" }
}

/// Folding elements `1..=i` of the `n` elements `pv` (shape `e`) under
/// division or remainder into `var`: what it adds, the running shape and
/// the running value's slots. Each step divides the running value by the
/// next element into a fresh accumulator of the step's shape, the last
/// step into `var`.
pub open spec fn fold_div_run(s0: nat, cnt: spec_fn(Seq<char>) -> nat, d: Map<VarV, PolyV>, var: VarV, e: TypV, pv: Seq<PolyV>, n: nat, is_rem: bool, i: nat)
    -> ((Seq<spec_fn(Env) -> int>, Seq<(Seq<char>, TypV)>, Map<VarV, PolyV>), TypV, Seq<PolyV>)
    decreases i,
{
    if i == 0 {
        ((Seq::empty(), Seq::empty(), d), e, slice(pv, e, 0))
    } else {
        let (prev, at, ap) = fold_div_run(s0, cnt, d, var, e, pv, n, is_rem, (i - 1) as nat);
        let s = (s0 - prev.1.len()) as nat;
        let c = shift_cnt(cnt, prev.1);
        let st = div_shape(at, e, is_rem)->0;
        if i + 1 == n {
            let step = dr_run(s, c, prev.2, var, at, ap, e, slice(pv, e, i), is_rem);
            (then_run(prev, step), st, var_polys(slot_list(var)))
        } else {
            let acc_alloc = seq![(div_fold_key(is_rem), st)];
            let acc = alloc_var(s, c, acc_alloc, 0);
            let step = then_run(
                (Seq::empty(), acc_alloc, prev.2),
                dr_run((s - 1) as nat, shift_cnt(c, acc_alloc), prev.2, acc, at, ap, e, slice(pv, e, i), is_rem),
            );
            (then_run(prev, step), st, var_polys(slot_list(acc)))
        }
    }
}

/// What folding steps `1..=i` needs: a shape for every step, room for each
/// accumulator, accumulators whose slots fit, and every step dividable.
pub open spec fn fold_div_ok(s0: nat, cnt: spec_fn(Seq<char>) -> nat, d: Map<VarV, PolyV>, var: VarV, e: TypV, pv: Seq<PolyV>, n: nat, is_rem: bool, i: nat) -> bool
    decreases i,
{
    if i == 0 {
        true
    } else {
        let (prev, at, ap) = fold_div_run(s0, cnt, d, var, e, pv, n, is_rem, (i - 1) as nat);
        let s = (s0 - prev.1.len()) as nat;
        let c = shift_cnt(cnt, prev.1);
        let st = div_shape(at, e, is_rem);
        let acc_alloc = seq![(div_fold_key(is_rem), st->0)];
        let acc = alloc_var(s, c, acc_alloc, 0);
        &&& fold_div_ok(s0, cnt, d, var, e, pv, n, is_rem, (i - 1) as nat)
        &&& prev.1.len() <= s0
        &&& st is Some
        &&& if i + 1 == n {
            dr_ok(s, c, prev.2, var, at, ap, e, slice(pv, e, i), is_rem)
        } else {
            &&& room(s, c, acc_alloc)
            &&& slots_ok(st->0)
            &&& dr_ok((s - 1) as nat, shift_cnt(c, acc_alloc), prev.2, acc, at, ap, e, slice(pv, e, i), is_rem)
        }
    }
}

proof fn lemma_fold_div_ok_at(s0: nat, cnt: spec_fn(Seq<char>) -> nat, d: Map<VarV, PolyV>, var: VarV, e: TypV, pv: Seq<PolyV>, n: nat, is_rem: bool, m: nat, k: nat)
    requires
        fold_div_ok(s0, cnt, d, var, e, pv, n, is_rem, m),
        k <= m,
    ensures
        fold_div_ok(s0, cnt, d, var, e, pv, n, is_rem, k),
    decreases m,
{
    if k < m {
        lemma_fold_div_ok_at(s0, cnt, d, var, e, pv, n, is_rem, (m - 1) as nat, k);
    }
}

/// A fresh accumulator, as a division step.
fn alloc_acc(builder: &mut IdealBuilder, ideal: &mut Ideal, is_rem: bool, typ: ATyp) -> (r: Var)
    requires
        old(ideal).wf(),
        old(builder).ns.wf(),
        room(old(builder).ns.next_sentinel(), builder_cnt(*old(builder)), seq![(div_fold_key(is_rem), typ@)]),
    ensures
        div_done(*old(builder), *final(builder), *old(ideal), *final(ideal), (Seq::empty(), seq![(div_fold_key(is_rem), typ@)], old(ideal).defs())),
        r@ == alloc_var(old(builder).ns.next_sentinel(), builder_cnt(*old(builder)), seq![(div_fold_key(is_rem), typ@)], 0),
{
    let ghost b0 = *builder;
    let ghost i0 = *ideal;
    let ghost a = seq![(div_fold_key(is_rem), typ@)];
    proof {
        reveal_with_fuel(key_count, 2);
        assert(builder_cnt(b0)(div_fold_key(is_rem)) + key_count(a, div_fold_key(is_rem)) <= usize::MAX);
    }
    let name = builder.ns.next_name(div_fold_key_str(is_rem));
    let acc = builder.sentinel_var(&name, typ, ideal);
    proof {
        reveal_with_fuel(key_count, 2);
        assert(a.take(0) =~= Seq::<(Seq<char>, TypV)>::empty());
        assert(views(ideal.var_order@) =~= views(i0.var_order@) + alloc_vars(b0.ns.next_sentinel(), builder_cnt(b0), a));
        assert forall|k: Seq<char>| #[trigger] builder.ns.count(k) == b0.ns.count(k) + key_count(a, k) by {}
        assert(ideal.gens() =~= i0.gens());
    }
    acc
}

/// Fold the `n` elements of `v_src`, each of shape `elem_t`, under
/// division (`is_rem` false) or remainder into `var` (see
/// [`fold_div_run`]); a single element adds nothing.
pub fn fold_div_rem(builder: &mut IdealBuilder, ideal: &mut Ideal, var: &Var, v_src: &PolySource, elem_t: &ATyp, n: usize, is_rem: bool)
    requires
        old(ideal).wf(),
        old(builder).ns.wf(),
        n >= 1,
        v_src.typ@ == TypV::Vec(Box::new(elem_t@), n as nat),
        v_src.pv().len() == n * plen(elem_t@),
        fold_div_ok(old(builder).ns.next_sentinel(), builder_cnt(*old(builder)), old(ideal).defs(), var@, elem_t@, v_src.pv(), n as nat, is_rem, (n - 1) as nat),
    ensures
        div_done(*old(builder), *final(builder), *old(ideal), *final(ideal),
            fold_div_run(old(builder).ns.next_sentinel(), builder_cnt(*old(builder)), old(ideal).defs(), var@, elem_t@, v_src.pv(), n as nat, is_rem, (n - 1) as nat).0),
{
    let ghost b0 = *builder;
    let ghost i0 = *ideal;
    let ghost s0 = builder.ns.next_sentinel();
    let ghost cnt = builder_cnt(*builder);
    let ghost d = ideal.defs();
    let ghost e = elem_t@;
    let ghost pv = v_src.pv();
    let ghost v = var@;
    proof {
        lemma_elem_len_pub(pv, e, n as nat, 0);
        assert(views(ideal.var_order@) =~= views(i0.var_order@) + alloc_vars(s0, cnt, Seq::empty()));
        assert forall|k: Seq<char>| #[trigger] builder.ns.count(k) == b0.ns.count(k) + key_count(Seq::empty(), k) by {}
        assert(ideal.gens().len() == i0.gens().len() + 0);
    }
    let mut acc_src = v_src.at_index(0).unwrap();
    let mut i: usize = 1;
    while i < n
        invariant
            1 <= i <= n,
            v_src.typ@ == TypV::Vec(Box::new(e), n as nat),
            pv == v_src.pv(),
            pv.len() == n * plen(e),
            e == elem_t@,
            v == var@,
            s0 == b0.ns.next_sentinel(),
            cnt == builder_cnt(b0),
            d == i0.defs(),
            fold_div_ok(s0, cnt, d, v, e, pv, n as nat, is_rem, (n - 1) as nat),
            i < n ==> acc_src.typ@ == fold_div_run(s0, cnt, d, v, e, pv, n as nat, is_rem, (i - 1) as nat).1,
            i < n ==> acc_src.pv() == fold_div_run(s0, cnt, d, v, e, pv, n as nat, is_rem, (i - 1) as nat).2,
            div_done(b0, *builder, i0, *ideal, fold_div_run(s0, cnt, d, v, e, pv, n as nat, is_rem, (i - 1) as nat).0),
        decreases n - i,
    {
        let ghost k = i as nat;
        let ghost (prev, at, ap) = fold_div_run(s0, cnt, d, v, e, pv, n as nat, is_rem, (k - 1) as nat);
        let ghost s = (s0 - prev.1.len()) as nat;
        let ghost c = shift_cnt(cnt, prev.1);
        proof {
            lemma_elem_len_pub(pv, e, n as nat, k);
            lemma_fold_div_ok_at(s0, cnt, d, v, e, pv, n as nat, is_rem, (n - 1) as nat, k);
        }
        let elem_src = v_src.at_index(i).unwrap();
        let step_typ = div_shape_of(&acc_src.typ, &elem_src.typ, is_rem).unwrap();
        let ghost bm = *builder;
        let ghost im = *ideal;
        proof {
            assert(builder_cnt(bm) =~= c);
            assert(im.defs() == prev.2);
        }
        if i == n - 1 {
            div_rem_op_inner(builder, ideal, var, &acc_src, &elem_src, is_rem);
            proof {
                let step = dr_run(s, c, prev.2, v, at, ap, e, slice(pv, e, k), is_rem);
                lemma_div_compose(b0, bm, *builder, i0, im, *ideal, prev, step);
            }
            i = i + 1;
        } else {
            let ghost acc_alloc = seq![(div_fold_key(is_rem), step_typ@)];
            let target = alloc_acc(builder, ideal, is_rem, step_typ.clone());
            let ghost b1 = *builder;
            let ghost i1 = *ideal;
            proof {
                assert(builder_cnt(b1) =~= shift_cnt(c, acc_alloc));
            }
            div_rem_op_inner(builder, ideal, &target, &acc_src, &elem_src, is_rem);
            proof {
                let inner = dr_run((s - 1) as nat, shift_cnt(c, acc_alloc), prev.2, target@, at, ap, e, slice(pv, e, k), is_rem);
                let first = (Seq::<spec_fn(Env) -> int>::empty(), acc_alloc, prev.2);
                lemma_div_compose(bm, b1, *builder, im, i1, *ideal, first, inner);
                lemma_div_compose(b0, bm, *builder, i0, im, *ideal, prev, then_run(first, inner));
            }
            acc_src = PolySource::from_vars(&target, step_typ);
            proof {
                assert(acc_src.pv() =~= var_polys(slot_list(target@)));
            }
            i = i + 1;
        }
    }
}

} // verus!

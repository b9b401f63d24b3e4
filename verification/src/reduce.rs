//! Folding the elements of a vector under a binary operator.
use vstd::prelude::*;

use crate::arith::{add_sub_op_inner, ew_enc, ew_ok, firsts, lemma_elem_len_pub, lemma_ew_extends, mul_op_inner, seconds, slice, zip_slots, BinOp, SlotOp};
use crate::encode::{binds, lemma_binds_compose, lemma_encodes_nothing, link_to_polys, link_to_witness, poly_vals, var_polys};
use crate::field::modulus;
use crate::ideal::Ideal;
use crate::namespace::{gb_name, IdealBuilder};
use crate::div::{div_done, fold_div_ok, fold_div_rem, fold_div_run, builder_cnt};
use crate::poly::Polynomial;
use crate::poly_source::{op_typ, operand_ok, operand_polys, pviews, Operand, PolySource};
use crate::polyv::{eval, Env, PolyV};
use crate::pow::{keyed_done, mul_shape, mul_shape_of};
use crate::typ::{has_poly, has_poly_type, plen, ATyp, TypV};
use crate::var::{child, extends, lemma_slots_extend, slot_list, slots_ok, views, Qualifier, Ref, Var, VarV};

verus! {

broadcast use {crate::field::lemma_val_lt, crate::polyv::lemma_eval_lt};

/// Operators a fold handles.
pub open spec fn foldable(op: BinOp) -> bool {
    op is Add || op is Sub || op is Mul || op is And || op is Concat
}

/// The slot combination of a fold step.
pub open spec fn fold_op(op: BinOp) -> SlotOp {
    match op {
        BinOp::Add => SlotOp::Add,
        BinOp::Sub => SlotOp::Sub,
        _ => SlotOp::Mul,
    }
}

/// The name under which a fold's accumulators are counted.
pub open spec fn fold_key(op: BinOp) -> Seq<char> {
    if op is Add || op is Sub {
        "reduce_addsub_acc"@
    } else {
        "reduce_mul_acc"@
    }
}

/// Shape of one fold step's result from the running shape `t` and an
/// element of shape `e`: sums keep the shape, products take
/// [`mul_shape`].
pub open spec fn step_shape(op: BinOp, t: TypV, e: TypV) -> Option<TypV> {
    if op is Add || op is Sub {
        Some(t)
    } else {
        mul_shape(t, e)
    }
}

/// Shape of the running value after folding in elements `1..=i`.
pub open spec fn fold_shape(op: BinOp, e: TypV, i: nat) -> Option<TypV>
    decreases i,
{
    if i == 0 {
        Some(e)
    } else {
        match fold_shape(op, e, (i - 1) as nat) {
            Some(t) => step_shape(op, t, e),
            None => None,
        }
    }
}

proof fn lemma_fold_shape_prefix(op: BinOp, e: TypV, i: nat, j: nat)
    requires
        i <= j,
        fold_shape(op, e, j) is Some,
    ensures
        fold_shape(op, e, i) is Some,
    decreases j,
{
    if i < j {
        lemma_fold_shape_prefix(op, e, i, (j - 1) as nat);
    }
}

/// Accumulator `q` of a fold: the sentinel `q` steps below `s0`, named by
/// the fold's counter from `c0`, holding the running value after step
/// `q + 1`.
pub open spec fn red_acc(s0: nat, c0: nat, op: BinOp, e: TypV, q: nat) -> VarV {
    VarV {
        reference: Ref((s0 - q) as usize),
        index: Seq::empty(),
        typ: fold_shape(op, e, q + 1)->0,
        qualifier: Qualifier::Local,
        name: gb_name(fold_key(op), c0 + q),
    }
}

/// Where step `s` of a fold of `n` elements goes: the result for the last
/// step, an accumulator otherwise.
pub open spec fn red_target(s0: nat, c0: nat, op: BinOp, var: VarV, e: TypV, n: nat, s: nat) -> VarV {
    if s == n - 1 {
        var
    } else {
        red_acc(s0, c0, op, e, (s - 1) as nat)
    }
}

/// The running value before step `s`: element 0, then the slots of the
/// previous accumulator.
pub open spec fn red_operand(s0: nat, c0: nat, op: BinOp, e: TypV, pv: Seq<PolyV>, s: nat) -> Seq<PolyV> {
    if s <= 1 {
        slice(pv, e, 0)
    } else {
        var_polys(slot_list(red_acc(s0, c0, op, e, (s - 2) as nat)))
    }
}

/// Bindings of steps `1..=i` of an accumulated fold.
pub open spec fn red_enc(s0: nat, c0: nat, op: BinOp, var: VarV, e: TypV, pv: Seq<PolyV>, n: nat, i: nat) -> Seq<(VarV, spec_fn(Env) -> int)>
    decreases i,
{
    if i == 0 {
        Seq::empty()
    } else {
        red_enc(s0, c0, op, var, e, pv, n, (i - 1) as nat) + ew_enc(
            fold_op(op),
            red_target(s0, c0, op, var, e, n, i),
            fold_shape(op, e, (i - 1) as nat)->0,
            red_operand(s0, c0, op, e, pv, i),
            e,
            slice(pv, e, i),
        )
    }
}

/// `x + y`, `x - y` or `x * y`, by the fold's operator.
pub open spec fn apply_op(op: BinOp, x: int, y: int) -> int {
    match op {
        BinOp::Add => x + y,
        BinOp::Sub => x - y,
        _ => x * y,
    }
}

/// Slot `j` of the running value after folding elements `0..=i` slot by
/// slot.
pub open spec fn fold_val(op: BinOp, e: TypV, pv: Seq<PolyV>, j: int, env: Env, i: nat) -> int
    decreases i,
{
    let x = eval(slice(pv, e, i)[j], env) as int;
    if i == 0 {
        x
    } else {
        apply_op(op, fold_val(op, e, pv, j, env, (i - 1) as nat), x)
    }
}

/// What folding the `n` elements `pv` of shape `e` into `var` under `op`
/// binds, and the accumulators it introduces: concatenation passes every
/// slot through; elements without polynomial-shaped parts fold slot by
/// slot; otherwise each step goes through [`add_sub_op_inner`] or
/// [`mul_op_inner`] into an accumulator, the last into `var`.
pub open spec fn fold_run(s0: nat, c0: nat, op: BinOp, var: VarV, e: TypV, pv: Seq<PolyV>, n: nat) -> (Seq<(VarV, spec_fn(Env) -> int)>, Seq<VarV>) {
    if op is Concat {
        (zip_slots(slot_list(var), poly_vals(pv)), Seq::empty())
    } else if !has_poly(e) {
        (zip_slots(slot_list(var), Seq::new(plen(e), |j: int| (|env: Env| fold_val(op, e, pv, j, env, (n - 1) as nat)))), Seq::empty())
    } else {
        (red_enc(s0, c0, op, var, e, pv, n, (n - 1) as nat), Seq::new(if n >= 2 { (n - 2) as nat } else { 0 }, |q: int| red_acc(s0, c0, op, e, q as nat)))
    }
}

/// What a fold needs: an operator it handles, `n` elements of shape `e`,
/// a result whose slots match, and for the accumulated form, the shapes of
/// every step, sentinels clear of the result and every step encodable.
pub open spec fn fold_ok(s0: nat, c0: nat, op: BinOp, var: VarV, e: TypV, pv: Seq<PolyV>, n: nat) -> bool {
    &&& foldable(op)
    &&& pv.len() == n * plen(e)
    &&& slots_ok(var.typ)
    &&& op is Concat ==> slot_list(var).len() == pv.len()
    &&& !(op is Concat) ==> n >= 1
    &&& (!(op is Concat) && !has_poly(e)) ==> slot_list(var).len() == plen(e)
    &&& (!(op is Concat) && has_poly(e)) ==> {
        &&& fold_shape(op, e, (n - 1) as nat) is Some
        &&& var.reference.0 + n <= s0 + 2
        &&& s0 <= usize::MAX
        &&& c0 + n < usize::MAX
        &&& n >= 2 ==> var.typ == fold_shape(op, e, (n - 1) as nat)->0
        &&& forall|q: nat| q + 2 < n ==> slots_ok(#[trigger] red_acc(s0, c0, op, e, q).typ)
        &&& forall|s: nat| 1 <= s < n ==> #[trigger] ew_ok(
            fold_op(op),
            red_target(s0, c0, op, var, e, n, s),
            fold_shape(op, e, (s - 1) as nat)->0,
            red_operand(s0, c0, op, e, pv, s),
            e,
            slice(pv, e, s),
        )
    }
}


/// The shape of one fold step (see [`step_shape`]).
fn step_shape_of(op: BinOp, t: &ATyp, e: &ATyp) -> (r: Option<ATyp>)
    ensures
        r is Some <==> step_shape(op, t@, e@) is Some,
        r matches Some(x) ==> step_shape(op, t@, e@) == Some(x@),
{
    match op {
        BinOp::Add | BinOp::Sub => Some(t.clone()),
        _ => mul_shape_of(t, e),
    }
}

/// One slot of a fold step.
fn combine(op: BinOp, a: &Polynomial, b: &Polynomial) -> (r: Polynomial)
    ensures
        forall|env: Env| #[trigger] eval(r@, env) == apply_op(op, eval(a@, env) as int, eval(b@, env) as int) % (modulus() as int),
{
    let md = Ghost(modulus() as int);
    match op {
        BinOp::Add => a.add(b),
        BinOp::Sub => {
            let r = a.sub(b);
            proof {
                assert forall|env: Env| #[trigger] eval(r@, env) == (eval(a@, env) - eval(b@, env)) % md@ by {
                    crate::polyv::lemma_mod_diff(eval(a@, env) as int, eval(b@, env) as int, md@);
                    vstd::arithmetic::div_mod::lemma_small_mod(eval(a@, env), modulus());
                    vstd::arithmetic::div_mod::lemma_small_mod(eval(b@, env), modulus());
                }
            }
            r
        },
        _ => a.mul(b),
    }
}

proof fn lemma_fold_step(op: BinOp, acc: int, x: nat, md: int)
    requires
        md > 0,
    ensures
        apply_op(op, acc % md, x as int) % md == apply_op(op, acc, x as int) % md,
{
    match op {
        BinOp::Add => vstd::arithmetic::div_mod::lemma_add_mod_noop(acc, x as int, md),
        BinOp::Sub => vstd::arithmetic::div_mod::lemma_sub_mod_noop(acc, x as int, md),
        _ => vstd::arithmetic::div_mod::lemma_mul_mod_noop(acc, x as int, md),
    }
    match op {
        BinOp::Add => vstd::arithmetic::div_mod::lemma_add_mod_noop(acc % md, x as int, md),
        BinOp::Sub => vstd::arithmetic::div_mod::lemma_sub_mod_noop(acc % md, x as int, md),
        _ => vstd::arithmetic::div_mod::lemma_mul_mod_noop(acc % md, x as int, md),
    }
    vstd::arithmetic::div_mod::lemma_mod_twice(acc, md);
}


/// Fold slot by slot: the running slots start as element 0's and take each
/// further element in with the operator.
fn fold_slotwise(ideal: &mut Ideal, var: &Var, v_src: &PolySource, op: BinOp, n: usize)
    requires
        old(ideal).wf(),
        v_src.typ@ is Vec,
        n >= 1,
        v_src.typ@->Vec_1 == n,
        v_src.pv().len() == n * plen(*v_src.typ@->Vec_0),
        slots_ok(var.typ@),
        slot_list(var@).len() == plen(*v_src.typ@->Vec_0),
    ensures
        binds(
            *old(ideal),
            *final(ideal),
            slot_list(var@),
            Seq::new(plen(*v_src.typ@->Vec_0), |j: int| (|env: Env| fold_val(op, *v_src.typ@->Vec_0, v_src.pv(), j, env, (n - 1) as nat))),
        ),
        final(ideal).var_order == old(ideal).var_order,
{
    let ghost e = *v_src.typ@->Vec_0;
    let ghost pv = v_src.pv();
    let ghost md = modulus() as int;
    proof {
        lemma_elem_len_pub(pv, e, n as nat, 0);
    }
    let mut acc = v_src.at_index(0).unwrap();
    let len = acc.polys.len();
    proof {
        assert forall|j: int, env: Env| 0 <= j < len implies #[trigger] eval(acc.polys@[j]@, env) == fold_val(op, e, pv, j, env, 0) % md by {
            assert(acc.pv()[j] == slice(pv, e, 0)[j]);
            vstd::arithmetic::div_mod::lemma_small_mod(eval(acc.polys@[j]@, env), modulus());
        }
    }
    let mut i: usize = 1;
    while i < n
        invariant
            1 <= i <= n,
            v_src.typ@ == TypV::Vec(Box::new(e), n as nat),
            pv == v_src.pv(),
            pv.len() == n * plen(e),
            md == modulus() as int,
            len == plen(e),
            acc.polys@.len() == len,
            forall|j: int, env: Env| 0 <= j < len ==> #[trigger] eval(acc.polys@[j]@, env) == fold_val(op, e, pv, j, env, (i - 1) as nat) % md,
        decreases n - i,
    {
        proof {
            lemma_elem_len_pub(pv, e, n as nat, i as nat);
        }
        let elem = v_src.at_index(i).unwrap();
        let mut j: usize = 0;
        while j < len
            invariant
                j <= len,
                len == plen(e),
                acc.polys@.len() == len,
                elem.pv() == slice(pv, e, i as nat),
                elem.polys@.len() == len,
                md == modulus() as int,
                1 <= i < n,
                forall|q: int, env: Env| 0 <= q < j ==> #[trigger] eval(acc.polys@[q]@, env) == fold_val(op, e, pv, q, env, i as nat) % md,
                forall|q: int, env: Env| j <= q < len ==> #[trigger] eval(acc.polys@[q]@, env) == fold_val(op, e, pv, q, env, (i - 1) as nat) % md,
            decreases len - j,
        {
            let c = combine(op, &acc.polys[j], &elem.polys[j]);
            proof {
                assert forall|env: Env| #[trigger] eval(c@, env) == fold_val(op, e, pv, j as int, env, i as nat) % md by {
                    let prev = fold_val(op, e, pv, j as int, env, (i - 1) as nat);
                    assert(elem.pv()[j as int] == slice(pv, e, i as nat)[j as int]);
                    lemma_fold_step(op, prev, eval(elem.polys@[j as int]@, env), md);
                }
            }
            acc.polys.set(j, c);
            j = j + 1;
        }
        i = i + 1;
    }
    let ghost pre = *ideal;
    let ghost got = poly_vals(pviews(acc.polys@));
    link_to_polys(ideal, var, acc.polys);
    proof {
        let want = Seq::new(len as nat, |j: int| (|env: Env| fold_val(op, e, pv, j, env, (n - 1) as nat)));
        assert forall|t: int, env: Env| 0 <= t < want.len() implies #[trigger] (got[t](env) % md) == want[t](env) % md by {
            vstd::arithmetic::div_mod::lemma_mod_twice(want[t](env), md);
        }
        crate::arith::lemma_encodes_vals(pre, *ideal, slot_list(var@), got, want);
    }
}


/// Fold through accumulators: step `i` combines the running value with
/// element `i` into a fresh accumulator of the step's shape, or into
/// `var` for the last step.
fn fold_accumulate(builder: &mut IdealBuilder, ideal: &mut Ideal, var: &Var, v_src: &PolySource, elem_t: &ATyp, op: BinOp, n: usize)
    requires
        old(ideal).wf(),
        old(builder).ns.wf(),
        !(op is Concat),
        v_src.typ@ == TypV::Vec(Box::new(elem_t@), n as nat),
        has_poly(elem_t@),
        fold_ok(old(builder).ns.next_sentinel(), old(builder).ns.count(fold_key(op)), op, var@, elem_t@, v_src.pv(), n as nat),
    ensures
        keyed_done(
            fold_key(op),
            *old(builder),
            *final(builder),
            *old(ideal),
            *final(ideal),
            fold_run(old(builder).ns.next_sentinel(), old(builder).ns.count(fold_key(op)), op, var@, elem_t@, v_src.pv(), n as nat),
        ),
{
    let ghost key = fold_key(op);
    let ghost s0 = builder.ns.next_sentinel();
    let ghost c0 = builder.ns.count(key);
    let ghost e = elem_t@;
    let ghost pv = v_src.pv();
    let ghost i0 = *ideal;
    let ghost b0 = *builder;
    let ghost v = var@;
    let ghost o0 = views(ideal.var_order@);
    proof {
        builder.ns.lemma_next_sentinel_fits();
        lemma_elem_len_pub(pv, e, n as nat, 0);
        lemma_encodes_nothing(*ideal);
        assert(firsts(red_enc(s0, c0, op, v, e, pv, n as nat, 0)) =~= Seq::<VarV>::empty());
        assert(seconds(red_enc(s0, c0, op, v, e, pv, n as nat, 0)) =~= Seq::<spec_fn(Env) -> int>::empty());
        assert(o0 =~= o0 + Seq::new(0, |q: int| red_acc(s0, c0, op, e, q as nat)));
    }
    let mut acc_src = v_src.at_index(0).unwrap();
    let mut acc_typ = elem_t.clone();
    let mut i: usize = 1;
    while i < n
        invariant
            1 <= i <= n,
            !(op is Concat),
            key == fold_key(op),
            v_src.typ@ == TypV::Vec(Box::new(e), n as nat),
            pv == v_src.pv(),
            pv.len() == n * plen(e),
            e == elem_t@,
            v == var@,
            has_poly(e),
            s0 <= usize::MAX,
            fold_ok(s0, c0, op, v, e, pv, n as nat),
            i < n ==> acc_typ@ == fold_shape(op, e, (i - 1) as nat)->0,
            i < n ==> acc_src.typ@ == acc_typ@,
            i < n ==> acc_src.pv() == red_operand(s0, c0, op, e, pv, i as nat),
            binds(i0, *ideal, firsts(red_enc(s0, c0, op, v, e, pv, n as nat, (i - 1) as nat)), seconds(red_enc(s0, c0, op, v, e, pv, n as nat, (i - 1) as nat))),
            i < n ==> forall|j: int| 0 <= j < red_enc(s0, c0, op, v, e, pv, n as nat, (i - 1) as nat).len()
                ==> s0 - (i - 1) < #[trigger] red_enc(s0, c0, op, v, e, pv, n as nat, (i - 1) as nat)[j].0.reference.0 <= s0,
            views(ideal.var_order@) == o0 + Seq::new(fold_used(n as nat, i as nat), |q: int| red_acc(s0, c0, op, e, q as nat)),
            o0 == views(i0.var_order@),
            builder.ns.wf(),
            builder.ns.next_sentinel() == s0 - fold_used(n as nat, i as nat),
            builder.ns.count(key) == c0 + fold_used(n as nat, i as nat),
            forall|k: Seq<char>| k != key ==> #[trigger] builder.ns.count(k) == b0.ns.count(k),
            builder.ns.witnesses() == b0.ns.witnesses(),
            builder.ns.inverses() == b0.ns.inverses(),
        decreases n - i,
    {
        let ghost s = i as nat;
        let ghost before = *ideal;
        proof {
            lemma_elem_len_pub(pv, e, n as nat, s);
            lemma_fold_shape_prefix(op, e, s, (n - 1) as nat);
        }
        let elem_src = v_src.at_index(i).unwrap();
        let step_typ = step_shape_of(op, &acc_typ, &elem_src.typ).unwrap();
        assert(step_typ@ == fold_shape(op, e, s)->0);
        let is_last = i == n - 1;
        let target = if is_last {
            var.clone()
        } else {
            let name = builder.ns.next_name(fold_key_str(op));
            builder.sentinel_var(&name, step_typ.clone(), ideal)
        };
        let ghost mid = *ideal;
        assert(target@ == red_target(s0, c0, op, v, e, n as nat, s));
        proof {
            assert(mid.gens() == before.gens());
            assert(mid.defs() == before.defs());
            assert(mid.names() == before.names());
            assert(ew_ok(fold_op(op), red_target(s0, c0, op, v, e, n as nat, s), fold_shape(op, e, (s - 1) as nat)->0, red_operand(s0, c0, op, e, pv, s), e, slice(pv, e, s)));
        }
        match op {
            BinOp::Add | BinOp::Sub => add_sub_op_inner(ideal, &target, &acc_src, &elem_src, &step_typ, op),
            _ => mul_op_inner(ideal, &target, &acc_src, &elem_src, &step_typ),
        }
        let ghost e_old = red_enc(s0, c0, op, v, e, pv, n as nat, (s - 1) as nat);
        let ghost e_new = ew_enc(fold_op(op), red_target(s0, c0, op, v, e, n as nat, s), fold_shape(op, e, (s - 1) as nat)->0, red_operand(s0, c0, op, e, pv, s), e, slice(pv, e, s));
        proof {
            assert(fold_op(op) == crate::arith::slot_op(op) || !(op is Add || op is Sub));
            lemma_ew_extends(fold_op(op), red_target(s0, c0, op, v, e, n as nat, s), fold_shape(op, e, (s - 1) as nat)->0, red_operand(s0, c0, op, e, pv, s), e, slice(pv, e, s));
            assert(firsts(e_old).disjoint(firsts(e_new))) by {
                assert forall|x: int, y: int| 0 <= x < firsts(e_old).len() && 0 <= y < firsts(e_new).len() implies firsts(e_old)[x] != firsts(e_new)[y] by {
                    assert(extends(e_new[y].0, red_target(s0, c0, op, v, e, n as nat, s)));
                    assert(s0 - (s - 1) < e_old[x].0.reference.0);
                }
            }
            lemma_binds_compose(i0, mid, *ideal, firsts(e_old), seconds(e_old), firsts(e_new), seconds(e_new));
            assert(red_enc(s0, c0, op, v, e, pv, n as nat, s) == e_old + e_new);
            assert(firsts(e_old + e_new) =~= firsts(e_old) + firsts(e_new));
            assert(seconds(e_old + e_new) =~= seconds(e_old) + seconds(e_new));
            if !is_last {
                assert forall|j: int| 0 <= j < (e_old + e_new).len() implies s0 - s < #[trigger] (e_old + e_new)[j].0.reference.0 <= s0 by {
                    if j < e_old.len() {
                        assert((e_old + e_new)[j] == e_old[j]);
                    } else {
                        assert((e_old + e_new)[j] == e_new[j - e_old.len()]);
                        assert(extends(e_new[j - e_old.len()].0, red_acc(s0, c0, op, e, (s - 1) as nat)));
                    }
                }
                assert(views(ideal.var_order@) =~= o0 + Seq::new(s, |q: int| red_acc(s0, c0, op, e, q as nat))) by {
                    assert(views(mid.var_order@) =~= views(before.var_order@).push(target@));
                }
            }
        }
        proof {
            assert(slots_ok(target.typ@));
        }
        acc_src = PolySource::from_vars(&target, step_typ.clone());
        acc_typ = step_typ;
        i = i + 1;
    }
}

/// Accumulators a fold of `n` elements has introduced once it reaches
/// step `i`: one per step before, but none for the last.
pub open spec fn fold_used(n: nat, i: nat) -> nat {
    if i == n && n >= 2 {
        (n - 2) as nat
    } else {
        (i - 1) as nat
    }
}

/// The fold's accumulator name, as text.
fn fold_key_str(op: BinOp) -> (r: &'static str)
    ensures
        r@ == fold_key(op),
{
    match op {
        BinOp::Add | BinOp::Sub => "reduce_addsub_acc",
        _ => "reduce_mul_acc",
    }
}


/// Division and remainder, the operators folded through the division
/// encoder.
pub open spec fn div_like(op: BinOp) -> bool {
    op is Div || op is Rem
}

/// What a fold needs: for division and remainder, at least one element and
/// every step dividable (see [`fold_div_ok`]); otherwise [`fold_ok`].
pub open spec fn reduce_inner_ok(b0: IdealBuilder, ideal: Ideal, rop: BinOp, var: VarV, e: TypV, pv: Seq<PolyV>, n: nat) -> bool {
    if div_like(rop) {
        &&& n >= 1
        &&& pv.len() == n * plen(e)
        &&& fold_div_ok(b0.ns.next_sentinel(), builder_cnt(b0), ideal.defs(), var, e, pv, n, rop is Rem, (n - 1) as nat)
    } else {
        fold_ok(b0.ns.next_sentinel(), b0.ns.count(fold_key(rop)), rop, var, e, pv, n)
    }
}

/// What a fold did: for division and remainder, [`fold_div_run`];
/// otherwise [`fold_run`].
pub open spec fn reduce_inner_done(b0: IdealBuilder, b1: IdealBuilder, i0: Ideal, i1: Ideal, rop: BinOp, var: VarV, e: TypV, pv: Seq<PolyV>, n: nat) -> bool {
    if div_like(rop) {
        div_done(b0, b1, i0, i1, fold_div_run(b0.ns.next_sentinel(), builder_cnt(b0), i0.defs(), var, e, pv, n, rop is Rem, (n - 1) as nat).0)
    } else {
        keyed_done(fold_key(rop), b0, b1, i0, i1, fold_run(b0.ns.next_sentinel(), b0.ns.count(fold_key(rop)), rop, var, e, pv, n))
    }
}

/// Fold the `n` elements of `v_src`, each of shape `elem_t`, under `rop`
/// into `var` (see [`fold_run`]): concatenation passes every slot
/// through; sums, differences, products and conjunctions fold left to
/// right, slot by slot when the elements have no polynomial-shaped part
/// and through accumulators otherwise; division and remainder fold through
/// accumulators (see [`fold_div_run`]).
pub fn reduce_op_inner(builder: &mut IdealBuilder, ideal: &mut Ideal, var: Var, rop: BinOp, v_src: PolySource, elem_t: ATyp, n: usize)
    requires
        old(ideal).wf(),
        old(builder).ns.wf(),
        v_src.typ@ == TypV::Vec(Box::new(elem_t@), n as nat),
        reduce_inner_ok(*old(builder), *old(ideal), rop, var@, elem_t@, v_src.pv(), n as nat),
    ensures
        reduce_inner_done(*old(builder), *final(builder), *old(ideal), *final(ideal), rop, var@, elem_t@, v_src.pv(), n as nat),
{
    let ghost i0 = *ideal;
    let ghost e = elem_t@;
    let ghost pv = v_src.pv();
    match rop {
        BinOp::Div | BinOp::Rem => {
            let is_rem = match rop {
                BinOp::Rem => true,
                _ => false,
            };
            fold_div_rem(builder, ideal, &var, &v_src, &elem_t, n, is_rem);
        },
        BinOp::Concat => {
            link_to_polys(ideal, &var, v_src.polys);
            proof {
                let z = zip_slots(slot_list(var@), poly_vals(pv));
                assert(firsts(z) =~= slot_list(var@));
                assert(seconds(z) =~= poly_vals(pv));
                assert(views(ideal.var_order@) =~= views(i0.var_order@) + Seq::<VarV>::empty());
            }
        },
        _ => {
            if !has_poly_type(&elem_t) {
                fold_slotwise(ideal, &var, &v_src, rop, n);
                proof {
                    let vals = Seq::new(plen(e), |j: int| (|env: Env| fold_val(rop, e, pv, j, env, (n - 1) as nat)));
                    let z = zip_slots(slot_list(var@), vals);
                    assert(firsts(z) =~= slot_list(var@));
                    assert(seconds(z) =~= vals);
                    assert(views(ideal.var_order@) =~= views(i0.var_order@) + Seq::<VarV>::empty());
                }
            } else {
                fold_accumulate(builder, ideal, &var, &v_src, &elem_t, rop, n);
            }
        },
    }
}

/// What [`reduce_op`] needs: a vector operand; a node for a single
/// element, whose slot count matches `var`'s; otherwise what
/// [`reduce_op_inner`] needs.
pub open spec fn reduce_ok(b0: IdealBuilder, ideal: Ideal, var: VarV, rop: BinOp, v: Operand) -> bool {
    &&& op_typ(v) is Vec
    &&& operand_ok(v, ideal)
    &&& slots_ok(var.typ)
    &&& if op_typ(v)->Vec_1 == 1 {
        &&& v is Ref
        &&& slot_list(var).len() == slot_list(child(ideal.names()[v->Ref_0], 0, *op_typ(v)->Vec_0)).len()
        &&& crate::var::index_ok(ideal.names()[v->Ref_0].typ)
        &&& crate::var::slot_typ(ideal.names()[v->Ref_0].typ, 0) == Some(*op_typ(v)->Vec_0)
    } else {
        reduce_inner_ok(b0, ideal, rop, var, *op_typ(v)->Vec_0, operand_polys(v, ideal), op_typ(v)->Vec_1)
    }
}

/// Reduce the vector operand `v` under `rop` into `var`: a single element
/// is linked through directly, slot by slot; longer vectors fold (see
/// [`reduce_op_inner`]).
pub fn reduce_op(builder: &mut IdealBuilder, ideal: &mut Ideal, var: &Var, rop: BinOp, v: &Operand)
    requires
        old(ideal).wf(),
        old(builder).ns.wf(),
        reduce_ok(*old(builder), *old(ideal), var@, rop, *v),
    ensures
        op_typ(*v)->Vec_1 == 1 ==> {
            let elem = child(old(ideal).names()[v->Ref_0], 0, *op_typ(*v)->Vec_0);
            &&& crate::encode::encodes(*old(ideal), *final(ideal), slot_list(var@), poly_vals(var_polys(slot_list(elem))))
            &&& *final(builder) == *old(builder)
        },
        op_typ(*v)->Vec_1 != 1 ==> reduce_inner_done(
            *old(builder),
            *final(builder),
            *old(ideal),
            *final(ideal),
            rop,
            var@,
            *op_typ(*v)->Vec_0,
            operand_polys(*v, *old(ideal)),
            op_typ(*v)->Vec_1,
        ),
{
    let (elem_t, n) = match v.typ() {
        ATyp::Vec(e, n) => {
            let inner: &ATyp = e;
            (inner.clone(), *n)
        },
        _ => {
            proof {
                assert(false);
            }
            return;
        },
    };
    if n == 1 {
        let r = match v {
            Operand::Ref(r, _) => *r,
            _ => {
                proof {
                    assert(false);
                }
                return;
            },
        };
        let v_var = ideal.find_ref(r);
        proof {
            crate::var::lemma_slots_ok_child(v_var.typ@, 0);
        }
        let elem_var = v_var.with_index(0).unwrap();
        link_to_witness(ideal, var, &elem_var);
        return;
    }
    let v_src = PolySource::from_ref_vars(ideal, v);
    reduce_op_inner(builder, ideal, var.clone(), rop, v_src, elem_t, n);
}

// ------------------------------------------------------------------ laws

/// The sum of a sequence of integers.
pub open spec fn total(xs: Seq<int>) -> int {
    xs.fold_left(0, |a: int, x: int| a + x)
}

/// The product of a sequence of integers.
pub open spec fn product(xs: Seq<int>) -> int {
    xs.fold_left(1, |a: int, x: int| a * x)
}

/// The values, under `env`, of slot `j` of the first `n` elements.
pub open spec fn elem_vals(e: TypV, pv: Seq<PolyV>, j: int, env: Env, n: nat) -> Seq<int> {
    Seq::new(n, |k: int| eval(slice(pv, e, k as nat)[j], env) as int)
}

/// The value a finished fold binds to slot `j` of its result.
pub open spec fn result_val(i1: Ideal, var: VarV, j: int, env: Env) -> int {
    eval(i1.defs()[slot_list(var)[j]], env) as int
}

/// What a slot-by-slot fold of `n >= 2` elements under `rop` binds result
/// slot `j` to.
proof fn lemma_slotwise_result(b0: IdealBuilder, b1: IdealBuilder, i0: Ideal, i1: Ideal, rop: BinOp, var: VarV, e: TypV, pv: Seq<PolyV>, n: nat, j: int, env: Env)
    requires
        !div_like(rop),
        !(rop is Concat),
        !has_poly(e),
        reduce_inner_ok(b0, i0, rop, var, e, pv, n),
        reduce_inner_done(b0, b1, i0, i1, rop, var, e, pv, n),
        0 <= j < plen(e),
    ensures
        result_val(i1, var, j, env) == fold_val(rop, e, pv, j, env, (n - 1) as nat) % (modulus() as int),
{
    let vals = Seq::new(plen(e), |q: int| (|env: Env| fold_val(rop, e, pv, q, env, (n - 1) as nat)));
    let z = zip_slots(slot_list(var), vals);
    assert(firsts(z)[j] == slot_list(var)[j]);
    assert(seconds(z)[j] == vals[j]);
    assert(eval(i1.defs()[firsts(z)[j]], env) == seconds(z)[j](env) % (modulus() as int));
}

proof fn lemma_fold_total(e: TypV, pv: Seq<PolyV>, j: int, env: Env, i: nat)
    ensures
        fold_val(BinOp::Add, e, pv, j, env, i) == total(elem_vals(e, pv, j, env, i + 1)),
    decreases i,
{
    let xs = elem_vals(e, pv, j, env, i + 1);
    assert(total(xs) == total(xs.drop_last()) + xs.last());
    assert(xs.last() == eval(slice(pv, e, i)[j], env) as int);
    if i > 0 {
        lemma_fold_total(e, pv, j, env, (i - 1) as nat);
        assert(xs.drop_last() =~= elem_vals(e, pv, j, env, i));
    } else {
        assert(xs.drop_last() =~= Seq::<int>::empty());
        assert(total(Seq::<int>::empty()) == 0);
    }
}

proof fn lemma_fold_product(op: BinOp, e: TypV, pv: Seq<PolyV>, j: int, env: Env, i: nat)
    requires
        op is Mul || op is And,
    ensures
        fold_val(op, e, pv, j, env, i) == product(elem_vals(e, pv, j, env, i + 1)),
    decreases i,
{
    let xs = elem_vals(e, pv, j, env, i + 1);
    assert(product(xs) == product(xs.drop_last()) * xs.last());
    assert(xs.last() == eval(slice(pv, e, i)[j], env) as int);
    if i > 0 {
        lemma_fold_product(op, e, pv, j, env, (i - 1) as nat);
        assert(xs.drop_last() =~= elem_vals(e, pv, j, env, i));
    } else {
        assert(xs.drop_last() =~= Seq::<int>::empty());
        assert(product(Seq::<int>::empty()) == 1);
        assert(1 * xs.last() == xs.last());
    }
}

proof fn lemma_fold_difference(e: TypV, pv: Seq<PolyV>, j: int, env: Env, i: nat)
    ensures
        fold_val(BinOp::Sub, e, pv, j, env, i) == elem_vals(e, pv, j, env, i + 1)[0]
            - total(elem_vals(e, pv, j, env, i + 1).subrange(1, (i + 1) as int)),
    decreases i,
{
    let xs = elem_vals(e, pv, j, env, i + 1);
    if i > 0 {
        lemma_fold_difference(e, pv, j, env, (i - 1) as nat);
        let ys = elem_vals(e, pv, j, env, i);
        assert(xs.subrange(1, (i + 1) as int).drop_last() =~= ys.subrange(1, i as int));
        assert(ys[0] == xs[0]);
    } else {
        assert(xs.subrange(1, 1) =~= Seq::<int>::empty());
    }
}

proof fn lemma_fold_conjunction(e: TypV, pv: Seq<PolyV>, j: int, env: Env, i: nat)
    requires
        forall|k: int| 0 <= k <= i ==> #[trigger] elem_vals(e, pv, j, env, i + 1)[k] == 0 || elem_vals(e, pv, j, env, i + 1)[k] == 1,
    ensures
        fold_val(BinOp::And, e, pv, j, env, i) == if (forall|k: int| 0 <= k <= i ==> #[trigger] elem_vals(e, pv, j, env, i + 1)[k] == 1) { 1int } else { 0int },
    decreases i,
{
    let xs = elem_vals(e, pv, j, env, i + 1);
    if i > 0 {
        let ys = elem_vals(e, pv, j, env, i);
        assert forall|k: int| 0 <= k <= i - 1 implies #[trigger] ys[k] == 0 || ys[k] == 1 by {
            assert(ys[k] == xs[k]);
        }
        lemma_fold_conjunction(e, pv, j, env, (i - 1) as nat);
        let prev = fold_val(BinOp::And, e, pv, j, env, (i - 1) as nat);
        assert(xs[i as int] == eval(slice(pv, e, i)[j], env) as int);
        assert(fold_val(BinOp::And, e, pv, j, env, i) == prev * xs[i as int]);
        assert(xs[i as int] == 0 || xs[i as int] == 1);
        if forall|k: int| 0 <= k <= i ==> #[trigger] xs[k] == 1 {
            assert forall|k: int| 0 <= k <= i - 1 implies #[trigger] ys[k] == 1 by {
                assert(ys[k] == xs[k]);
            }
        } else {
            let k = choose|k: int| 0 <= k <= i && !(#[trigger] xs[k] == 1);
            assert(xs[k] == 0);
            if k < i {
                assert(ys[k] == xs[k]);
                assert(!(forall|q: int| 0 <= q <= i - 1 ==> #[trigger] ys[q] == 1));
                assert(prev == 0);
            }
        }
    } else {
        assert(xs[0] == eval(slice(pv, e, 0)[j], env) as int);
    }
}

/// Law: reducing under `&&` elements that are booleans (0 or 1) binds each
/// result slot to 1 when that slot is 1 in every element, and to 0 when it
/// is 0 in some element.
pub proof fn lemma_reduce_and_is_conjunction(b0: IdealBuilder, b1: IdealBuilder, i0: Ideal, i1: Ideal, var: VarV, e: TypV, pv: Seq<PolyV>, n: nat, j: int, env: Env)
    requires
        !has_poly(e),
        reduce_inner_ok(b0, i0, BinOp::And, var, e, pv, n),
        reduce_inner_done(b0, b1, i0, i1, BinOp::And, var, e, pv, n),
        0 <= j < plen(e),
        forall|k: int| 0 <= k < n ==> #[trigger] elem_vals(e, pv, j, env, n)[k] == 0 || elem_vals(e, pv, j, env, n)[k] == 1,
    ensures
        (forall|k: int| 0 <= k < n ==> #[trigger] elem_vals(e, pv, j, env, n)[k] == 1) ==> result_val(i1, var, j, env) == 1,
        (exists|k: int| 0 <= k < n && #[trigger] elem_vals(e, pv, j, env, n)[k] == 0) ==> result_val(i1, var, j, env) == 0,
{
    lemma_slotwise_result(b0, b1, i0, i1, BinOp::And, var, e, pv, n, j, env);
    let m = (n - 1) as nat;
    assert(n == m + 1);
    lemma_fold_conjunction(e, pv, j, env, m);
    vstd::arithmetic::div_mod::lemma_small_mod(1, modulus());
    vstd::arithmetic::div_mod::lemma_small_mod(0, modulus());
}

/// Law: reducing under `*` or `&&` (slot by slot) binds each result slot to
/// the product of that slot over the elements.
pub proof fn lemma_reduce_mul_is_product(b0: IdealBuilder, b1: IdealBuilder, i0: Ideal, i1: Ideal, rop: BinOp, var: VarV, e: TypV, pv: Seq<PolyV>, n: nat, j: int, env: Env)
    requires
        rop is Mul || rop is And,
        !has_poly(e),
        reduce_inner_ok(b0, i0, rop, var, e, pv, n),
        reduce_inner_done(b0, b1, i0, i1, rop, var, e, pv, n),
        0 <= j < plen(e),
    ensures
        result_val(i1, var, j, env) == product(elem_vals(e, pv, j, env, n)) % (modulus() as int),
{
    lemma_slotwise_result(b0, b1, i0, i1, rop, var, e, pv, n, j, env);
    lemma_fold_product(rop, e, pv, j, env, (n - 1) as nat);
}

/// Law: reducing under `+` (slot by slot) binds each result slot to the
/// sum of that slot over the elements.
pub proof fn lemma_reduce_add_is_sum(b0: IdealBuilder, b1: IdealBuilder, i0: Ideal, i1: Ideal, var: VarV, e: TypV, pv: Seq<PolyV>, n: nat, j: int, env: Env)
    requires
        !has_poly(e),
        reduce_inner_ok(b0, i0, BinOp::Add, var, e, pv, n),
        reduce_inner_done(b0, b1, i0, i1, BinOp::Add, var, e, pv, n),
        0 <= j < plen(e),
    ensures
        result_val(i1, var, j, env) == total(elem_vals(e, pv, j, env, n)) % (modulus() as int),
{
    lemma_slotwise_result(b0, b1, i0, i1, BinOp::Add, var, e, pv, n, j, env);
    lemma_fold_total(e, pv, j, env, (n - 1) as nat);
}

/// Law: reducing under `-` (slot by slot) binds each result slot to the
/// first element's slot minus the sum of that slot over the others.
pub proof fn lemma_reduce_sub_is_difference(b0: IdealBuilder, b1: IdealBuilder, i0: Ideal, i1: Ideal, var: VarV, e: TypV, pv: Seq<PolyV>, n: nat, j: int, env: Env)
    requires
        !has_poly(e),
        reduce_inner_ok(b0, i0, BinOp::Sub, var, e, pv, n),
        reduce_inner_done(b0, b1, i0, i1, BinOp::Sub, var, e, pv, n),
        0 <= j < plen(e),
    ensures
        result_val(i1, var, j, env) == (elem_vals(e, pv, j, env, n)[0] - total(elem_vals(e, pv, j, env, n).subrange(1, n as int))) % (modulus() as int),
{
    lemma_slotwise_result(b0, b1, i0, i1, BinOp::Sub, var, e, pv, n, j, env);
    lemma_fold_difference(e, pv, j, env, (n - 1) as nat);
}

proof fn lemma_and_mul_shape(e: TypV, i: nat)
    ensures
        fold_shape(BinOp::And, e, i) == fold_shape(BinOp::Mul, e, i),
    decreases i,
{
    if i > 0 {
        lemma_and_mul_shape(e, (i - 1) as nat);
    }
}

proof fn lemma_and_mul_val(e: TypV, pv: Seq<PolyV>, j: int, env: Env, i: nat)
    ensures
        fold_val(BinOp::And, e, pv, j, env, i) == fold_val(BinOp::Mul, e, pv, j, env, i),
    decreases i,
{
    if i > 0 {
        lemma_and_mul_val(e, pv, j, env, (i - 1) as nat);
    }
}

proof fn lemma_and_mul_enc(s0: nat, c0: nat, var: VarV, e: TypV, pv: Seq<PolyV>, n: nat, i: nat)
    ensures
        red_enc(s0, c0, BinOp::And, var, e, pv, n, i) == red_enc(s0, c0, BinOp::Mul, var, e, pv, n, i),
    decreases i,
{
    assert forall|q: nat| #[trigger] red_acc(s0, c0, BinOp::And, e, q) == red_acc(s0, c0, BinOp::Mul, e, q) by {
        lemma_and_mul_shape(e, q + 1);
    }
    if i > 0 {
        lemma_and_mul_enc(s0, c0, var, e, pv, n, (i - 1) as nat);
        lemma_and_mul_shape(e, (i - 1) as nat);
        assert(red_target(s0, c0, BinOp::And, var, e, n, i) == red_target(s0, c0, BinOp::Mul, var, e, n, i));
        assert(red_operand(s0, c0, BinOp::And, e, pv, i) == red_operand(s0, c0, BinOp::Mul, e, pv, i));
    }
}

/// Law: reducing under `&&` asks for and does exactly what reducing the
/// same elements under `*` does.
pub proof fn lemma_reduce_and_as_mul(b0: IdealBuilder, b1: IdealBuilder, i0: Ideal, i1: Ideal, var: VarV, e: TypV, pv: Seq<PolyV>, n: nat)
    ensures
        reduce_inner_ok(b0, i0, BinOp::And, var, e, pv, n) == reduce_inner_ok(b0, i0, BinOp::Mul, var, e, pv, n),
        reduce_inner_done(b0, b1, i0, i1, BinOp::And, var, e, pv, n) == reduce_inner_done(b0, b1, i0, i1, BinOp::Mul, var, e, pv, n),
{
    let s0 = b0.ns.next_sentinel();
    let c0 = b0.ns.count(fold_key(BinOp::And));
    assert(fold_key(BinOp::And) == fold_key(BinOp::Mul));
    lemma_and_mul_shape(e, (n - 1) as nat);
    lemma_and_mul_enc(s0, c0, var, e, pv, n, (n - 1) as nat);
    assert forall|q: nat| #[trigger] red_acc(s0, c0, BinOp::And, e, q) == red_acc(s0, c0, BinOp::Mul, e, q) by {
        lemma_and_mul_shape(e, q + 1);
    }
    assert forall|s: nat| 1 <= s < n implies #[trigger] red_target(s0, c0, BinOp::And, var, e, n, s) == red_target(s0, c0, BinOp::Mul, var, e, n, s)
        && fold_shape(BinOp::And, e, (s - 1) as nat) == fold_shape(BinOp::Mul, e, (s - 1) as nat)
        && red_operand(s0, c0, BinOp::And, e, pv, s) == red_operand(s0, c0, BinOp::Mul, e, pv, s) by {
        lemma_and_mul_shape(e, (s - 1) as nat);
    }
    assert(fold_ok(s0, c0, BinOp::And, var, e, pv, n) == fold_ok(s0, c0, BinOp::Mul, var, e, pv, n)) by {
        let a_ok = forall|s: nat| 1 <= s < n ==> #[trigger] ew_ok(
            fold_op(BinOp::And),
            red_target(s0, c0, BinOp::And, var, e, n, s),
            fold_shape(BinOp::And, e, (s - 1) as nat)->0,
            red_operand(s0, c0, BinOp::And, e, pv, s),
            e,
            slice(pv, e, s),
        );
        let m_ok = forall|s: nat| 1 <= s < n ==> #[trigger] ew_ok(
            fold_op(BinOp::Mul),
            red_target(s0, c0, BinOp::Mul, var, e, n, s),
            fold_shape(BinOp::Mul, e, (s - 1) as nat)->0,
            red_operand(s0, c0, BinOp::Mul, e, pv, s),
            e,
            slice(pv, e, s),
        );
        assert(a_ok == m_ok) by {
            if a_ok {
                assert forall|s: nat| 1 <= s < n implies #[trigger] ew_ok(
                    fold_op(BinOp::Mul),
                    red_target(s0, c0, BinOp::Mul, var, e, n, s),
                    fold_shape(BinOp::Mul, e, (s - 1) as nat)->0,
                    red_operand(s0, c0, BinOp::Mul, e, pv, s),
                    e,
                    slice(pv, e, s),
                ) by {
                    lemma_and_mul_shape(e, (s - 1) as nat);
                    assert(red_target(s0, c0, BinOp::And, var, e, n, s) == red_target(s0, c0, BinOp::Mul, var, e, n, s));
                    assert(red_operand(s0, c0, BinOp::And, e, pv, s) == red_operand(s0, c0, BinOp::Mul, e, pv, s));
                }
            }
            if m_ok {
                assert forall|s: nat| 1 <= s < n implies #[trigger] ew_ok(
                    fold_op(BinOp::And),
                    red_target(s0, c0, BinOp::And, var, e, n, s),
                    fold_shape(BinOp::And, e, (s - 1) as nat)->0,
                    red_operand(s0, c0, BinOp::And, e, pv, s),
                    e,
                    slice(pv, e, s),
                ) by {
                    lemma_and_mul_shape(e, (s - 1) as nat);
                    assert(red_target(s0, c0, BinOp::And, var, e, n, s) == red_target(s0, c0, BinOp::Mul, var, e, n, s));
                    assert(red_operand(s0, c0, BinOp::And, e, pv, s) == red_operand(s0, c0, BinOp::Mul, e, pv, s));
                }
            }
        }
        let a_acc = forall|q: nat| q + 2 < n ==> slots_ok(#[trigger] red_acc(s0, c0, BinOp::And, e, q).typ);
        let m_acc = forall|q: nat| q + 2 < n ==> slots_ok(#[trigger] red_acc(s0, c0, BinOp::Mul, e, q).typ);
        assert(a_acc == m_acc) by {
            if a_acc {
                assert forall|q: nat| q + 2 < n implies slots_ok(#[trigger] red_acc(s0, c0, BinOp::Mul, e, q).typ) by {
                    assert(red_acc(s0, c0, BinOp::And, e, q) == red_acc(s0, c0, BinOp::Mul, e, q));
                }
            }
            if m_acc {
                assert forall|q: nat| q + 2 < n implies slots_ok(#[trigger] red_acc(s0, c0, BinOp::And, e, q).typ) by {
                    assert(red_acc(s0, c0, BinOp::And, e, q) == red_acc(s0, c0, BinOp::Mul, e, q));
                }
            }
        }
    }
    let va = Seq::new(plen(e), |j: int| (|env: Env| fold_val(BinOp::And, e, pv, j, env, (n - 1) as nat)));
    let vm = Seq::new(plen(e), |j: int| (|env: Env| fold_val(BinOp::Mul, e, pv, j, env, (n - 1) as nat)));
    assert forall|j: int| 0 <= j < plen(e) implies va[j] == vm[j] by {
        assert forall|env: Env| #[trigger] va[j](env) == vm[j](env) by {
            lemma_and_mul_val(e, pv, j, env, (n - 1) as nat);
        }
        assert(va[j] =~= vm[j]);
    }
    assert(va =~= vm);
    assert(fold_run(s0, c0, BinOp::And, var, e, pv, n) == fold_run(s0, c0, BinOp::Mul, var, e, pv, n)) by {
        assert(Seq::new(if n >= 2 { (n - 2) as nat } else { 0 }, |q: int| red_acc(s0, c0, BinOp::And, e, q as nat))
            =~= Seq::new(if n >= 2 { (n - 2) as nat } else { 0 }, |q: int| red_acc(s0, c0, BinOp::Mul, e, q as nat)));
    }
}

} // verus!

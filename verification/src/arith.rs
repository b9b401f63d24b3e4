//! Arithmetic encoders: addition, subtraction and multiplication of two
//! operands, element by element over vectors, binding the result slots of a
//! target variable.
use vstd::prelude::*;

use crate::encode::{encodes, lemma_encodes_compose, lemma_encodes_nothing, link_to_polys, poly_vals};
use crate::field::{modulus, Fe};
use crate::ideal::Ideal;
use crate::poly::Polynomial;
use crate::poly_source::{
    find_index, injectable, injected, lag1, lemma_lift_vals, lemma_position_exists, lemma_position_some, lift_val, liftable,
    position, pviews, PolySource,
};
use crate::combinatorics::{
    binom, cube_point, enumerates, hypercube, is_multi_index, lemma_enumeration_position, mi_seq, mi_views, multi_indices,
    seq_sum,
};
use vstd::arithmetic::power2::*;
use crate::polyv::{eval, is_diff, is_sum, lemma_mod_diff, Env, PolyV};
use crate::typ::{plen, poly_shape, scalar_like, ABase, ATyp, TypV};
use crate::var::{child, extends, lemma_child_extends, lemma_slots_extend, slot_list, slot_typ, slots_ok, Var, VarV};

verus! {

broadcast use {crate::field::lemma_val_lt, crate::polyv::lemma_eval_lt};

/// Binary operators of the language.
#[derive(Clone, Copy, PartialEq, Eq, Structural, Debug)]
pub enum BinOp {
    Add,
    Sub,
    Mul,
    Div,
    Rem,
    Pow,
    Dot,
    Equ,
    And,
    Concat,
}

/// The slot-level combination an element-wise encoder applies.
#[derive(Clone, Copy, PartialEq, Eq, Structural, Debug)]
pub enum SlotOp {
    Add,
    Sub,
    Mul,
    Pair,
}

/// The slot-level combination of an additive operator.
pub open spec fn slot_op(op: BinOp) -> SlotOp {
    if op is Add {
        SlotOp::Add
    } else {
        SlotOp::Sub
    }
}

/// `a + b` or `a - b`.
pub fn apply_binop(op: BinOp, a: &Polynomial, b: &Polynomial) -> (r: Polynomial)
    requires
        op is Add || op is Sub,
    ensures
        op is Add ==> is_sum(r@, a@, b@),
        op is Sub ==> is_diff(r@, a@, b@),
{
    match op {
        BinOp::Add => a.add(b),
        _ => a.sub(b),
    }
}

/// Unreduced value of `l op r` for `op` addition or subtraction.
pub open spec fn arith(op: SlotOp, l: int, r: int) -> int {
    if op is Add { l + r } else { l - r }
}

/// Values of `left[j] op right[j]`.
pub open spec fn pair_vals(op: SlotOp, left: Seq<PolyV>, right: Seq<PolyV>) -> Seq<spec_fn(Env) -> int> {
    Seq::new(left.len(), |j: int| (|env: Env| arith(op, eval(left[j], env) as int, eval(right[j], env) as int)))
}

proof fn lemma_arith_mod(op: SlotOp, l: int, r: int, m: int)
    requires
        m > 0,
        op is Add || op is Sub,
    ensures
        op is Add ==> ((l % m) + (r % m)) % m == arith(op, l, r) % m,
        op is Sub ==> ((l % m) + m - (r % m)) % m == arith(op, l, r) % m,
{
    vstd::arithmetic::div_mod::lemma_add_mod_noop(l, r, m);
    lemma_mod_diff(l, r, m);
}

/// Bind slot `j` of `var` to `left[j] op right[j]`.
pub fn emit_slotwise_binop(ideal: &mut Ideal, var: &Var, left: &[Polynomial], right: &[Polynomial], op: BinOp)
    requires
        old(ideal).wf(),
        op is Add || op is Sub,
        slots_ok(var.typ@),
        slot_list(var@).len() == left@.len(),
        slot_list(var@).len() == right@.len(),
    ensures
        encodes(*old(ideal), *final(ideal), slot_list(var@), pair_vals(slot_op(op), pviews(left@), pviews(right@))),
{
    let mut combined: Vec<Polynomial> = Vec::new();
    let mut j: usize = 0;
    while j < left.len()
        invariant
            j <= left@.len(),
            left@.len() == right@.len(),
            op is Add || op is Sub,
            combined@.len() == j,
            forall|t: int| 0 <= t < j ==> op is Add ==> is_sum(#[trigger] combined@[t]@, left@[t]@, right@[t]@),
            forall|t: int| 0 <= t < j ==> op is Sub ==> is_diff(#[trigger] combined@[t]@, left@[t]@, right@[t]@),
        decreases left@.len() - j,
    {
        combined.push(apply_binop(op, &left[j], &right[j]));
        j = j + 1;
    }
    let ghost got = poly_vals(pviews(combined@));
    let ghost want = pair_vals(slot_op(op), pviews(left@), pviews(right@));
    link_to_polys(ideal, var, combined);
    proof {
        let md = modulus() as int;
        assert forall|t: int, env: Env| 0 <= t < want.len() implies #[trigger] (got[t](env) % md) == want[t](env) % md by {
            let l = eval(left@[t]@, env) as int;
            let r = eval(right@[t]@, env) as int;
            lemma_arith_mod(slot_op(op), l, r, md);
            vstd::arithmetic::div_mod::lemma_small_mod(l as nat, md as nat);
            vstd::arithmetic::div_mod::lemma_small_mod(r as nat, md as nat);
            vstd::arithmetic::div_mod::lemma_small_mod(eval(combined@[t]@, env), md as nat);
        }
        lemma_encodes_vals(*old(ideal), *ideal, slot_list(var@), got, want);
    }
}

/// Bindings agree when their values agree after reduction.
pub proof fn lemma_encodes_vals(
    a: Ideal,
    b: Ideal,
    s: Seq<VarV>,
    v: Seq<spec_fn(Env) -> int>,
    w: Seq<spec_fn(Env) -> int>,
)
    requires
        encodes(a, b, s, v),
        w.len() == v.len(),
        forall|t: int, env: Env| 0 <= t < w.len() ==> #[trigger] (v[t](env) % (modulus() as int)) == w[t](env) % (modulus() as int),
    ensures
        encodes(a, b, s, w),
{
    let md = modulus() as int;
    assert forall|j: int, env: Env| 0 <= j < s.len() implies #[trigger] eval(b.gens()[a.gens().len() + j], env)
        == (w[j](env) - env(s[j])) % md by {
        assert(v[j](env) % md == w[j](env) % md);
        lemma_sub_mod_congruent(v[j](env), w[j](env), env(s[j]) as int, md);
    }
    assert forall|j: int, env: Env| 0 <= j < s.len() implies #[trigger] eval(b.defs()[s[j]], env)
        == w[j](env) % md by {
        assert(v[j](env) % md == w[j](env) % md);
    }
}

proof fn lemma_sub_mod_congruent(x: int, y: int, z: int, m: int)
    requires
        m > 0,
        x % m == y % m,
    ensures
        (x - z) % m == (y - z) % m,
{
    vstd::arithmetic::div_mod::lemma_sub_mod_noop(x, z, m);
    vstd::arithmetic::div_mod::lemma_sub_mod_noop(y, z, m);
}


/// Coefficient- or evaluation-form polynomial shapes.
pub open spec fn is_poly_typ(t: TypV) -> bool {
    poly_shape(t) is Some || t is Mle
}

/// `x op y` respects congruence modulo `m`.
proof fn lemma_arith_congr(op: SlotOp, x: int, x2: int, y: int, y2: int, m: int)
    requires
        m > 0,
        x % m == x2 % m,
        y % m == y2 % m,
    ensures
        arith(op, x, y) % m == arith(op, x2, y2) % m,
{
    vstd::arithmetic::div_mod::lemma_add_mod_noop(x, y, m);
    vstd::arithmetic::div_mod::lemma_add_mod_noop(x2, y2, m);
    vstd::arithmetic::div_mod::lemma_sub_mod_noop(x, y, m);
    vstd::arithmetic::div_mod::lemma_sub_mod_noop(x2, y2, m);
}

/// Unreduced value of slot `j` of `a op b` (addition or subtraction) at a
/// non-vector level: a scalar is injected as the constant of the other
/// side's polynomial shape, polynomials are lifted to the result shape
/// `tr`, other values combine slot by slot.
pub open spec fn addsub_leaf_val(op: SlotOp, ta: TypV, pa: Seq<PolyV>, tb: TypV, pb: Seq<PolyV>, tr: TypV, j: int, env: Env) -> int {
    if scalar_like(tb) && is_poly_typ(ta) {
        arith(op, lift_val(ta, tr, pa, j, env), eval(injected(tr, pb[0])[j], env) as int)
    } else if scalar_like(ta) && is_poly_typ(tb) {
        arith(op, eval(injected(tr, pa[0])[j], env) as int, lift_val(tb, tr, pb, j, env))
    } else if is_poly_typ(ta) && is_poly_typ(tb) {
        arith(op, lift_val(ta, tr, pa, j, env), lift_val(tb, tr, pb, j, env))
    } else {
        arith(op, eval(pa[j], env) as int, eval(pb[j], env) as int)
    }
}

/// Number of result slots of a non-vector addition or subtraction.
pub open spec fn addsub_leaf_len(ta: TypV, pa: Seq<PolyV>, tb: TypV, tr: TypV) -> nat {
    if (scalar_like(tb) && is_poly_typ(ta)) || (scalar_like(ta) && is_poly_typ(tb)) || (is_poly_typ(ta)
        && is_poly_typ(tb)) {
        plen(tr)
    } else {
        pa.len()
    }
}

/// Operands a non-vector addition or subtraction into target `t` handles:
/// liftable polynomial shapes, a scalar beside a polynomial, or two
/// non-polynomial values of equal slot count, with as many target slots as
/// results.
pub open spec fn addsub_leaf_ok(t: VarV, ta: TypV, pa: Seq<PolyV>, tb: TypV, pb: Seq<PolyV>) -> bool {
    let tr = t.typ;
    &&& slots_ok(tr)
    &&& pa.len() == plen(ta)
    &&& pb.len() == plen(tb)
    &&& if scalar_like(tb) && is_poly_typ(ta) {
        &&& liftable(ta, tr)
        &&& plen(tr) <= usize::MAX
        &&& injectable(tr)
        &&& slot_list(t).len() == plen(tr)
    } else if scalar_like(ta) && is_poly_typ(tb) {
        &&& liftable(tb, tr)
        &&& plen(tr) <= usize::MAX
        &&& injectable(tr)
        &&& slot_list(t).len() == plen(tr)
    } else if is_poly_typ(ta) && is_poly_typ(tb) {
        &&& liftable(ta, tr)
        &&& liftable(tb, tr)
        &&& plen(tr) <= usize::MAX
        &&& slot_list(t).len() == plen(tr)
    } else if !is_poly_typ(ta) && !is_poly_typ(tb) {
        &&& pa.len() == pb.len()
        &&& slot_list(t).len() == pa.len()
    } else {
        false
    }
}

/// Values of the slots of a non-vector addition or subtraction.
pub open spec fn addsub_leaf_vals(op: SlotOp, ta: TypV, pa: Seq<PolyV>, tb: TypV, pb: Seq<PolyV>, tr: TypV) -> Seq<spec_fn(Env) -> int> {
    Seq::new(addsub_leaf_len(ta, pa, tb, tr), |j: int| (|env: Env| addsub_leaf_val(op, ta, pa, tb, pb, tr, j, env)))
}

/// Non-vector addition or subtraction: inject a scalar beside a polynomial
/// as its constant, lift polynomials to the result shape, then bind the
/// target slots to the slot-wise sums or differences.
pub fn add_sub_leaf(ideal: &mut Ideal, var: &Var, a: &PolySource, b: &PolySource, r_typ: &ATyp, op: BinOp)
    requires
        old(ideal).wf(),
        op is Add || op is Sub,
        var.typ@ == r_typ@,
        addsub_leaf_ok(var@, a.typ@, a.pv(), b.typ@, b.pv()),
    ensures
        encodes(*old(ideal), *final(ideal), slot_list(var@), addsub_leaf_vals(slot_op(op), a.typ@, a.pv(), b.typ@, b.pv(), r_typ@)),
{
    let ghost (ta, pa, tb, pb, tr) = (a.typ@, a.pv(), b.typ@, b.pv(), r_typ@);
    let ghost want = addsub_leaf_vals(slot_op(op), ta, pa, tb, pb, tr);
    let ghost md = modulus() as int;
    if PolySource::is_scalar_like(&b.typ) && a.is_poly() {
        let a_l = a.lift_to(r_typ);
        let b_l = b.inject_constant_to(r_typ);
        emit_slotwise_binop(ideal, var, a_l.polys(), b_l.polys(), op);
        proof {
            lemma_lift_vals(ta, tr, pa, a_l.pv());
            let got = pair_vals(slot_op(op), a_l.pv(), b_l.pv());
            assert forall|t: int, env: Env| 0 <= t < want.len() implies #[trigger] (got[t](env) % md) == want[t](env) % md by {
                lemma_arith_congr(slot_op(op), eval(a_l.pv()[t], env) as int, lift_val(ta, tr, pa, t, env),
                    eval(b_l.pv()[t], env) as int, eval(injected(tr, pb[0])[t], env) as int, md);
                vstd::arithmetic::div_mod::lemma_mod_twice(lift_val(ta, tr, pa, t, env), md);
            }
            lemma_encodes_vals(*old(ideal), *ideal, slot_list(var@), got, want);
        }
    } else if PolySource::is_scalar_like(&a.typ) && b.is_poly() {
        let a_l = a.inject_constant_to(r_typ);
        let b_l = b.lift_to(r_typ);
        emit_slotwise_binop(ideal, var, a_l.polys(), b_l.polys(), op);
        proof {
            lemma_lift_vals(tb, tr, pb, b_l.pv());
            let got = pair_vals(slot_op(op), a_l.pv(), b_l.pv());
            assert forall|t: int, env: Env| 0 <= t < want.len() implies #[trigger] (got[t](env) % md) == want[t](env) % md by {
                lemma_arith_congr(slot_op(op), eval(a_l.pv()[t], env) as int, eval(injected(tr, pa[0])[t], env) as int,
                    eval(b_l.pv()[t], env) as int, lift_val(tb, tr, pb, t, env), md);
                vstd::arithmetic::div_mod::lemma_mod_twice(lift_val(tb, tr, pb, t, env), md);
            }
            lemma_encodes_vals(*old(ideal), *ideal, slot_list(var@), got, want);
        }
    } else if a.is_poly() && b.is_poly() {
        let a_l = a.lift_to(r_typ);
        let b_l = b.lift_to(r_typ);
        emit_slotwise_binop(ideal, var, a_l.polys(), b_l.polys(), op);
        proof {
            lemma_lift_vals(ta, tr, pa, a_l.pv());
            lemma_lift_vals(tb, tr, pb, b_l.pv());
            let got = pair_vals(slot_op(op), a_l.pv(), b_l.pv());
            assert forall|t: int, env: Env| 0 <= t < want.len() implies #[trigger] (got[t](env) % md) == want[t](env) % md by {
                lemma_arith_congr(slot_op(op), eval(a_l.pv()[t], env) as int, lift_val(ta, tr, pa, t, env),
                    eval(b_l.pv()[t], env) as int, lift_val(tb, tr, pb, t, env), md);
                vstd::arithmetic::div_mod::lemma_mod_twice(lift_val(ta, tr, pa, t, env), md);
                vstd::arithmetic::div_mod::lemma_mod_twice(lift_val(tb, tr, pb, t, env), md);
            }
            lemma_encodes_vals(*old(ideal), *ideal, slot_list(var@), got, want);
        }
    } else if !a.is_poly() && !b.is_poly() {
        emit_slotwise_binop(ideal, var, a.polys(), b.polys(), op);
        proof {
            let got = pair_vals(slot_op(op), pa, pb);
            assert forall|t: int, env: Env| 0 <= t < want.len() implies #[trigger] (got[t](env) % md) == want[t](env) % md by {
            }
            lemma_encodes_vals(*old(ideal), *ideal, slot_list(var@), got, want);
        }
    } else {
        proof {
            assert(false);
        }
    }
}


/// Slots of element `i` of a vector operand whose elements have shape `e`.
pub open spec fn slice(ps: Seq<PolyV>, e: TypV, i: nat) -> Seq<PolyV> {
    ps.subrange((i * plen(e)) as int, ((i + 1) * plen(e)) as int)
}

/// Element shape of the target's vector shape.
pub open spec fn tel(t: VarV) -> TypV {
    match t.typ {
        TypV::Vec(e, _) => *e,
        _ => t.typ,
    }
}

/// The target is a vector of at least `n` elements.
pub open spec fn vec_target(t: VarV, n: nat) -> bool {
    t.typ matches TypV::Vec(_, nt) && n <= nt
}

/// Pairs each slot with its value.
pub open spec fn zip_slots(s: Seq<VarV>, v: Seq<spec_fn(Env) -> int>) -> Seq<(VarV, spec_fn(Env) -> int)> {
    Seq::new(s.len(), |j: int| (s[j], v[j]))
}

/// The slots of a binding list.
pub open spec fn firsts(e: Seq<(VarV, spec_fn(Env) -> int)>) -> Seq<VarV> {
    e.map_values(|p: (VarV, spec_fn(Env) -> int)| p.0)
}

/// The values of a binding list.
pub open spec fn seconds(e: Seq<(VarV, spec_fn(Env) -> int)>) -> Seq<spec_fn(Env) -> int> {
    e.map_values(|p: (VarV, spec_fn(Env) -> int)| p.1)
}

/// Non-vector operands `op` handles.
pub open spec fn leaf_ok(op: SlotOp, t: VarV, ta: TypV, pa: Seq<PolyV>, tb: TypV, pb: Seq<PolyV>) -> bool {
    match op {
        SlotOp::Mul => mul_leaf_ok(t, ta, pa, tb, pb),
        SlotOp::Pair => pair_leaf_ok(t, ta, pa, tb, pb),
        _ => addsub_leaf_ok(t, ta, pa, tb, pb),
    }
}

/// Values of the result slots of `op` on non-vector operands.
pub open spec fn leaf_vals(op: SlotOp, ta: TypV, pa: Seq<PolyV>, tb: TypV, pb: Seq<PolyV>, tr: TypV) -> Seq<spec_fn(Env) -> int> {
    match op {
        SlotOp::Mul => mul_leaf_vals(ta, pa, tb, pb, tr),
        SlotOp::Pair => pair_leaf_vals(ta, pa, tb, pb, tr),
        _ => addsub_leaf_vals(op, ta, pa, tb, pb, tr),
    }
}

/// The slots bound, each with its value, when `op` is applied to operands
/// `(ta, pa)` and `(tb, pb)` into target `t`: element by element over equal
/// length vectors, each element of a vector against the whole other
/// operand, and at the non-vector level by [`leaf_vals`].
pub open spec fn ew_enc(op: SlotOp, t: VarV, ta: TypV, pa: Seq<PolyV>, tb: TypV, pb: Seq<PolyV>) -> Seq<(VarV, spec_fn(Env) -> int)>
    decreases ta, tb, 0nat,
{
    match ta {
        TypV::Vec(ea, na) => match tb {
            TypV::Vec(eb, nb) => if na == nb {
                ew_vv(op, t, *ea, pa, *eb, pb, na)
            } else {
                ew_vl(op, t, *ea, pa, tb, pb, na)
            },
            _ => ew_vl(op, t, *ea, pa, tb, pb, na),
        },
        _ => match tb {
            TypV::Vec(eb, nb) => ew_vr(op, t, ta, pa, *eb, pb, nb),
            _ => zip_slots(slot_list(t), leaf_vals(op, ta, pa, tb, pb, t.typ)),
        },
    }
}

/// Bindings of the first `i` elements of two vectors.
pub open spec fn ew_vv(op: SlotOp, t: VarV, ea: TypV, pa: Seq<PolyV>, eb: TypV, pb: Seq<PolyV>, i: nat) -> Seq<(VarV, spec_fn(Env) -> int)>
    decreases ea, eb, i,
{
    if i == 0 {
        Seq::empty()
    } else {
        let k = (i - 1) as nat;
        ew_vv(op, t, ea, pa, eb, pb, k) + ew_enc(op, child(t, k, tel(t)), ea, slice(pa, ea, k), eb, slice(pb, eb, k))
    }
}

/// Bindings of the first `i` elements of a left vector against `(tb, pb)`.
pub open spec fn ew_vl(op: SlotOp, t: VarV, ea: TypV, pa: Seq<PolyV>, tb: TypV, pb: Seq<PolyV>, i: nat) -> Seq<(VarV, spec_fn(Env) -> int)>
    decreases ea, tb, i,
{
    if i == 0 {
        Seq::empty()
    } else {
        let k = (i - 1) as nat;
        ew_vl(op, t, ea, pa, tb, pb, k) + ew_enc(op, child(t, k, tel(t)), ea, slice(pa, ea, k), tb, pb)
    }
}

/// Bindings of `(ta, pa)` against the first `i` elements of a right vector.
pub open spec fn ew_vr(op: SlotOp, t: VarV, ta: TypV, pa: Seq<PolyV>, eb: TypV, pb: Seq<PolyV>, i: nat) -> Seq<(VarV, spec_fn(Env) -> int)>
    decreases ta, eb, i,
{
    if i == 0 {
        Seq::empty()
    } else {
        let k = (i - 1) as nat;
        ew_vr(op, t, ta, pa, eb, pb, k) + ew_enc(op, child(t, k, tel(t)), ta, pa, eb, slice(pb, eb, k))
    }
}

/// Operands and target `op` handles without failing: slot counts match the
/// shapes, the target is a vector wherever an operand is, and every
/// non-vector level satisfies [`leaf_ok`].
pub open spec fn ew_ok(op: SlotOp, t: VarV, ta: TypV, pa: Seq<PolyV>, tb: TypV, pb: Seq<PolyV>) -> bool
    decreases ta, tb, 0nat,
{
    &&& pa.len() == plen(ta)
    &&& pb.len() == plen(tb)
    &&& match ta {
        TypV::Vec(ea, na) => match tb {
            TypV::Vec(eb, nb) => if na == nb {
                vec_target(t, na) && ew_vv_ok(op, t, *ea, pa, *eb, pb, na)
            } else {
                vec_target(t, na) && ew_vl_ok(op, t, *ea, pa, tb, pb, na)
            },
            _ => vec_target(t, na) && ew_vl_ok(op, t, *ea, pa, tb, pb, na),
        },
        _ => match tb {
            TypV::Vec(eb, nb) => vec_target(t, nb) && ew_vr_ok(op, t, ta, pa, *eb, pb, nb),
            _ => leaf_ok(op, t, ta, pa, tb, pb),
        },
    }
}

pub open spec fn ew_vv_ok(op: SlotOp, t: VarV, ea: TypV, pa: Seq<PolyV>, eb: TypV, pb: Seq<PolyV>, i: nat) -> bool
    decreases ea, eb, i,
{
    if i == 0 {
        true
    } else {
        let k = (i - 1) as nat;
        ew_vv_ok(op, t, ea, pa, eb, pb, k) && ew_ok(op, child(t, k, tel(t)), ea, slice(pa, ea, k), eb, slice(pb, eb, k))
    }
}

pub open spec fn ew_vl_ok(op: SlotOp, t: VarV, ea: TypV, pa: Seq<PolyV>, tb: TypV, pb: Seq<PolyV>, i: nat) -> bool
    decreases ea, tb, i,
{
    if i == 0 {
        true
    } else {
        let k = (i - 1) as nat;
        ew_vl_ok(op, t, ea, pa, tb, pb, k) && ew_ok(op, child(t, k, tel(t)), ea, slice(pa, ea, k), tb, pb)
    }
}

pub open spec fn ew_vr_ok(op: SlotOp, t: VarV, ta: TypV, pa: Seq<PolyV>, eb: TypV, pb: Seq<PolyV>, i: nat) -> bool
    decreases ta, eb, i,
{
    if i == 0 {
        true
    } else {
        let k = (i - 1) as nat;
        ew_vr_ok(op, t, ta, pa, eb, pb, k) && ew_ok(op, child(t, k, tel(t)), ta, pa, eb, slice(pb, eb, k))
    }
}

proof fn lemma_vv_ok_at(op: SlotOp, t: VarV, ea: TypV, pa: Seq<PolyV>, eb: TypV, pb: Seq<PolyV>, i: nat, k: nat)
    requires
        ew_vv_ok(op, t, ea, pa, eb, pb, i),
        k < i,
    ensures
        ew_ok(op, child(t, k, tel(t)), ea, slice(pa, ea, k), eb, slice(pb, eb, k)),
    decreases i,
{
    if k < i - 1 {
        lemma_vv_ok_at(op, t, ea, pa, eb, pb, (i - 1) as nat, k);
    }
}

proof fn lemma_vl_ok_at(op: SlotOp, t: VarV, ea: TypV, pa: Seq<PolyV>, tb: TypV, pb: Seq<PolyV>, i: nat, k: nat)
    requires
        ew_vl_ok(op, t, ea, pa, tb, pb, i),
        k < i,
    ensures
        ew_ok(op, child(t, k, tel(t)), ea, slice(pa, ea, k), tb, pb),
    decreases i,
{
    if k < i - 1 {
        lemma_vl_ok_at(op, t, ea, pa, tb, pb, (i - 1) as nat, k);
    }
}

proof fn lemma_vr_ok_at(op: SlotOp, t: VarV, ta: TypV, pa: Seq<PolyV>, eb: TypV, pb: Seq<PolyV>, i: nat, k: nat)
    requires
        ew_vr_ok(op, t, ta, pa, eb, pb, i),
        k < i,
    ensures
        ew_ok(op, child(t, k, tel(t)), ta, pa, eb, slice(pb, eb, k)),
    decreases i,
{
    if k < i - 1 {
        lemma_vr_ok_at(op, t, ta, pa, eb, pb, (i - 1) as nat, k);
    }
}

/// Every slot an element-wise binding touches lies below the target.
pub proof fn lemma_ew_extends(op: SlotOp, t: VarV, ta: TypV, pa: Seq<PolyV>, tb: TypV, pb: Seq<PolyV>)
    ensures
        forall|j: int| 0 <= j < ew_enc(op, t, ta, pa, tb, pb).len() ==> extends(#[trigger] ew_enc(op, t, ta, pa, tb, pb)[j].0, t),
    decreases ta, tb, 0nat,
{
    match ta {
        TypV::Vec(ea, na) => match tb {
            TypV::Vec(eb, nb) => if na == nb {
                lemma_vv_extends(op, t, *ea, pa, *eb, pb, na);
                assert(ew_enc(op, t, ta, pa, tb, pb) == ew_vv(op, t, *ea, pa, *eb, pb, na));
            } else {
                lemma_vl_extends(op, t, *ea, pa, tb, pb, na);
                assert(ew_enc(op, t, ta, pa, tb, pb) == ew_vl(op, t, *ea, pa, tb, pb, na));
            },
            _ => {
                lemma_vl_extends(op, t, *ea, pa, tb, pb, na);
                assert(ew_enc(op, t, ta, pa, tb, pb) == ew_vl(op, t, *ea, pa, tb, pb, na));
            },
        },
        _ => match tb {
            TypV::Vec(eb, nb) => {
                lemma_vr_extends(op, t, ta, pa, *eb, pb, nb);
                assert(ew_enc(op, t, ta, pa, tb, pb) == ew_vr(op, t, ta, pa, *eb, pb, nb));
            },
            _ => {
                lemma_slots_extend(t);
                let l = leaf_vals(op, ta, pa, tb, pb, t.typ);
                assert forall|j: int| 0 <= j < ew_enc(op, t, ta, pa, tb, pb).len() implies extends(#[trigger] ew_enc(op, t, ta, pa, tb, pb)[j].0, t) by {
                    assert(ew_enc(op, t, ta, pa, tb, pb)[j].0 == slot_list(t)[j]);
                }
            },
        },
    }
}

/// Slots of the first `i` elements lie below the target, in elements
/// before `i`.
pub open spec fn below_before(e: Seq<(VarV, spec_fn(Env) -> int)>, t: VarV, i: nat) -> bool {
    forall|j: int| 0 <= j < e.len() ==> {
        let w = #[trigger] e[j].0;
        &&& extends(w, t)
        &&& w.index.len() > t.index.len()
        &&& (w.index[t.index.len() as int] as nat) < i
    }
}

proof fn lemma_step_below(
    prev: Seq<(VarV, spec_fn(Env) -> int)>,
    next: Seq<(VarV, spec_fn(Env) -> int)>,
    t: VarV,
    k: nat,
    ct: TypV,
)
    requires
        below_before(prev, t, k),
        forall|j: int| 0 <= j < next.len() ==> extends(#[trigger] next[j].0, child(t, k, ct)),
        k <= usize::MAX,
    ensures
        below_before(prev + next, t, k + 1),
{
    assert forall|j: int| 0 <= j < (prev + next).len() implies {
        let w = #[trigger] (prev + next)[j].0;
        &&& extends(w, t)
        &&& w.index.len() > t.index.len()
        &&& (w.index[t.index.len() as int] as nat) < k + 1
    } by {
        if j >= prev.len() {
            lemma_child_extends(next[j - prev.len()].0, t, k, ct);
            assert((prev + next)[j] == next[j - prev.len()]);
        } else {
            assert((prev + next)[j] == prev[j]);
        }
    }
}

proof fn lemma_vv_extends(op: SlotOp, t: VarV, ea: TypV, pa: Seq<PolyV>, eb: TypV, pb: Seq<PolyV>, i: nat)
    ensures
        forall|j: int| 0 <= j < ew_vv(op, t, ea, pa, eb, pb, i).len() ==> extends(#[trigger] ew_vv(op, t, ea, pa, eb, pb, i)[j].0, t),
    decreases ea, eb, i,
{
    if i > 0 {
        let k = (i - 1) as nat;
        lemma_vv_extends(op, t, ea, pa, eb, pb, k);
        lemma_ew_extends(op, child(t, k, tel(t)), ea, slice(pa, ea, k), eb, slice(pb, eb, k));
        let a = ew_vv(op, t, ea, pa, eb, pb, k);
        let b = ew_enc(op, child(t, k, tel(t)), ea, slice(pa, ea, k), eb, slice(pb, eb, k));
        assert forall|j: int| 0 <= j < (a + b).len() implies extends(#[trigger] (a + b)[j].0, t) by {
            if j >= a.len() {
                lemma_child_extends(b[j - a.len()].0, t, k, tel(t));
                assert((a + b)[j] == b[j - a.len()]);
            } else {
                assert((a + b)[j] == a[j]);
            }
        }
    }
}

proof fn lemma_vl_extends(op: SlotOp, t: VarV, ea: TypV, pa: Seq<PolyV>, tb: TypV, pb: Seq<PolyV>, i: nat)
    ensures
        forall|j: int| 0 <= j < ew_vl(op, t, ea, pa, tb, pb, i).len() ==> extends(#[trigger] ew_vl(op, t, ea, pa, tb, pb, i)[j].0, t),
    decreases ea, tb, i,
{
    if i > 0 {
        let k = (i - 1) as nat;
        lemma_vl_extends(op, t, ea, pa, tb, pb, k);
        lemma_ew_extends(op, child(t, k, tel(t)), ea, slice(pa, ea, k), tb, pb);
        let a = ew_vl(op, t, ea, pa, tb, pb, k);
        let b = ew_enc(op, child(t, k, tel(t)), ea, slice(pa, ea, k), tb, pb);
        assert forall|j: int| 0 <= j < (a + b).len() implies extends(#[trigger] (a + b)[j].0, t) by {
            if j >= a.len() {
                lemma_child_extends(b[j - a.len()].0, t, k, tel(t));
                assert((a + b)[j] == b[j - a.len()]);
            } else {
                assert((a + b)[j] == a[j]);
            }
        }
    }
}

proof fn lemma_vr_extends(op: SlotOp, t: VarV, ta: TypV, pa: Seq<PolyV>, eb: TypV, pb: Seq<PolyV>, i: nat)
    ensures
        forall|j: int| 0 <= j < ew_vr(op, t, ta, pa, eb, pb, i).len() ==> extends(#[trigger] ew_vr(op, t, ta, pa, eb, pb, i)[j].0, t),
    decreases ta, eb, i,
{
    if i > 0 {
        let k = (i - 1) as nat;
        lemma_vr_extends(op, t, ta, pa, eb, pb, k);
        lemma_ew_extends(op, child(t, k, tel(t)), ta, pa, eb, slice(pb, eb, k));
        let a = ew_vr(op, t, ta, pa, eb, pb, k);
        let b = ew_enc(op, child(t, k, tel(t)), ta, pa, eb, slice(pb, eb, k));
        assert forall|j: int| 0 <= j < (a + b).len() implies extends(#[trigger] (a + b)[j].0, t) by {
            if j >= a.len() {
                lemma_child_extends(b[j - a.len()].0, t, k, tel(t));
                assert((a + b)[j] == b[j - a.len()]);
            } else {
                assert((a + b)[j] == a[j]);
            }
        }
    }
}


proof fn lemma_step_compose(
    a: Ideal,
    b: Ideal,
    c: Ideal,
    prev: Seq<(VarV, spec_fn(Env) -> int)>,
    next: Seq<(VarV, spec_fn(Env) -> int)>,
    t: VarV,
    k: nat,
    ct: TypV,
)
    requires
        encodes(a, b, firsts(prev), seconds(prev)),
        encodes(b, c, firsts(next), seconds(next)),
        below_before(prev, t, k),
        forall|j: int| 0 <= j < next.len() ==> extends(#[trigger] next[j].0, child(t, k, ct)),
        k <= usize::MAX,
    ensures
        encodes(a, c, firsts(prev + next), seconds(prev + next)),
        below_before(prev + next, t, k + 1),
{
    lemma_step_below(prev, next, t, k, ct);
    assert(firsts(prev).disjoint(firsts(next))) by {
        assert forall|x: int, y: int| 0 <= x < firsts(prev).len() && 0 <= y < firsts(next).len() implies firsts(prev)[x] != firsts(next)[y] by {
            lemma_child_extends(next[y].0, t, k, ct);
            assert(firsts(prev)[x] == prev[x].0);
            assert(firsts(next)[y] == next[y].0);
        }
    }
    lemma_encodes_compose(a, b, c, firsts(prev), seconds(prev), firsts(next), seconds(next));
    assert(firsts(prev + next) =~= firsts(prev) + firsts(next));
    assert(seconds(prev + next) =~= seconds(prev) + seconds(next));
}

proof fn lemma_elem_len(pa: Seq<PolyV>, e: TypV, n: nat, i: nat)
    requires
        pa.len() == n * plen(e),
        i < n,
    ensures
        (i + 1) * plen(e) <= pa.len(),
        slice(pa, e, i).len() == plen(e),
{
    let p = plen(e);
    assert((i + 1) * p <= n * p) by (nonlinear_arith)
        requires
            i < n,
    ;
    assert(i * p + p == (i + 1) * p) by (nonlinear_arith);
}

/// `op` (addition, subtraction or multiplication) of `a` and `b` into
/// `var`, element by element over vectors: equal-length vectors pair up, a
/// vector meets the other operand whole in each element, and non-vector
/// levels go through [`add_sub_leaf`] or [`mul_leaf`].
fn elementwise_op(ideal: &mut Ideal, var: &Var, a: &PolySource, b: &PolySource, r_typ: &ATyp, op: SlotOp)
    requires
        old(ideal).wf(),
        var.typ@ == r_typ@,
        ew_ok(op, var@, a.typ@, a.pv(), b.typ@, b.pv()),
    ensures
        encodes(
            *old(ideal),
            *final(ideal),
            firsts(ew_enc(op, var@, a.typ@, a.pv(), b.typ@, b.pv())),
            seconds(ew_enc(op, var@, a.typ@, a.pv(), b.typ@, b.pv())),
        ),
    decreases a.typ@, b.typ@,
{
    let ghost (ta, pa, tb, pb) = (a.typ@, a.pv(), b.typ@, b.pv());
    let ghost t = var@;
    let a_vec = match &a.typ {
        ATyp::Vec(_, na) => Some(*na),
        _ => None,
    };
    let b_vec = match &b.typ {
        ATyp::Vec(_, nb) => Some(*nb),
        _ => None,
    };
    if a_vec.is_none() && b_vec.is_none() {
        match op {
            SlotOp::Add => add_sub_leaf(ideal, var, a, b, r_typ, BinOp::Add),
            SlotOp::Sub => add_sub_leaf(ideal, var, a, b, r_typ, BinOp::Sub),
            SlotOp::Mul => mul_leaf(ideal, var, a, b, r_typ),
            SlotOp::Pair => pair_leaf(ideal, var, a, b, r_typ),
        }
        proof {
            let e = ew_enc(op, t, ta, pa, tb, pb);
            assert(firsts(e) =~= slot_list(t));
            assert(seconds(e) =~= leaf_vals(op, ta, pa, tb, pb, t.typ));
        }
        return;
    }
    let r_inner: &ATyp = match r_typ {
        ATyp::Vec(inner, _) => inner,
        _ => {
            proof {
                assert(false);
            }
            r_typ
        },
    };
    assert(tel(t) == r_inner@);
    proof {
        lemma_encodes_nothing(*ideal);
        assert(firsts(Seq::<(VarV, spec_fn(Env) -> int)>::empty()) =~= Seq::<VarV>::empty());
        assert(seconds(Seq::<(VarV, spec_fn(Env) -> int)>::empty()) =~= Seq::<spec_fn(Env) -> int>::empty());
    }
    let pair = match (a_vec, b_vec) {
        (Some(na), Some(nb)) => na == nb,
        _ => false,
    };
    if pair {
        let n = a_vec.unwrap();
        let ghost ea = *ta->Vec_0;
        let ghost eb = *tb->Vec_0;
        assert(ew_enc(op, t, ta, pa, tb, pb) == ew_vv(op, t, ea, pa, eb, pb, n as nat));
        let mut i: usize = 0;
        while i < n
            invariant
                i <= n,
                ta == TypV::Vec(Box::new(ea), n as nat),
                tb == TypV::Vec(Box::new(eb), n as nat),
                vec_target(t, n as nat),
                a.typ@ == ta,
                b.typ@ == tb,
                pa == a.pv(),
                pb == b.pv(),
                t == var@,
                tel(t) == r_inner@,
                var.typ@ == r_typ@,
                ew_ok(op, t, ta, pa, tb, pb),
                ew_vv_ok(op, t, ea, pa, eb, pb, n as nat),
                encodes(*old(ideal), *ideal, firsts(ew_vv(op, t, ea, pa, eb, pb, i as nat)), seconds(ew_vv(op, t, ea, pa, eb, pb, i as nat))),
                below_before(ew_vv(op, t, ea, pa, eb, pb, i as nat), t, i as nat),
            decreases n - i,
        {
            proof {
                lemma_elem_len(pa, ea, n as nat, i as nat);
                lemma_elem_len(pb, eb, n as nat, i as nat);
                lemma_vv_ok_at(op, t, ea, pa, eb, pb, n as nat, i as nat);
            }
            let a_elem = a.at_index(i).unwrap();
            let b_elem = b.at_index(i).unwrap();
            let t_i = var.with_index(i).unwrap();
            let ghost mid = *ideal;
            elementwise_op(ideal, &t_i, &a_elem, &b_elem, r_inner, op);
            proof {
                let k = i as nat;
                let next = ew_enc(op, child(t, k, tel(t)), ea, slice(pa, ea, k), eb, slice(pb, eb, k));
                lemma_ew_extends(op, child(t, k, tel(t)), ea, slice(pa, ea, k), eb, slice(pb, eb, k));
                lemma_step_compose(*old(ideal), mid, *ideal, ew_vv(op, t, ea, pa, eb, pb, k), next, t, k, tel(t));
            }
            i = i + 1;
        }
    } else if a_vec.is_some() {
        let n = a_vec.unwrap();
        let ghost ea = *ta->Vec_0;
        assert(ew_enc(op, t, ta, pa, tb, pb) == ew_vl(op, t, ea, pa, tb, pb, n as nat));
        let mut i: usize = 0;
        while i < n
            invariant
                i <= n,
                ta == TypV::Vec(Box::new(ea), n as nat),
                a.typ@ == ta,
                b.typ@ == tb,
                pa == a.pv(),
                pb == b.pv(),
                t == var@,
                tel(t) == r_inner@,
                var.typ@ == r_typ@,
                ew_ok(op, t, ta, pa, tb, pb),
                ew_vl_ok(op, t, ea, pa, tb, pb, n as nat),
                encodes(*old(ideal), *ideal, firsts(ew_vl(op, t, ea, pa, tb, pb, i as nat)), seconds(ew_vl(op, t, ea, pa, tb, pb, i as nat))),
                below_before(ew_vl(op, t, ea, pa, tb, pb, i as nat), t, i as nat),
            decreases n - i,
        {
            proof {
                lemma_elem_len(pa, ea, n as nat, i as nat);
                lemma_vl_ok_at(op, t, ea, pa, tb, pb, n as nat, i as nat);
            }
            let a_elem = a.at_index(i).unwrap();
            let t_i = var.with_index(i).unwrap();
            let ghost mid = *ideal;
            elementwise_op(ideal, &t_i, &a_elem, b, r_inner, op);
            proof {
                let k = i as nat;
                let next = ew_enc(op, child(t, k, tel(t)), ea, slice(pa, ea, k), tb, pb);
                lemma_ew_extends(op, child(t, k, tel(t)), ea, slice(pa, ea, k), tb, pb);
                lemma_step_compose(*old(ideal), mid, *ideal, ew_vl(op, t, ea, pa, tb, pb, k), next, t, k, tel(t));
            }
            i = i + 1;
        }
    } else {
        let n = b_vec.unwrap();
        let ghost eb = *tb->Vec_0;
        assert(!(ta is Vec));
        assert(vec_target(t, n as nat));
        assert(ew_enc(op, t, ta, pa, tb, pb) == ew_vr(op, t, ta, pa, eb, pb, n as nat));
        let mut i: usize = 0;
        while i < n
            invariant
                i <= n,
                tb == TypV::Vec(Box::new(eb), n as nat),
                vec_target(t, n as nat),
                a.typ@ == ta,
                b.typ@ == tb,
                pa == a.pv(),
                pb == b.pv(),
                t == var@,
                tel(t) == r_inner@,
                var.typ@ == r_typ@,
                ew_ok(op, t, ta, pa, tb, pb),
                ew_vr_ok(op, t, ta, pa, eb, pb, n as nat),
                encodes(*old(ideal), *ideal, firsts(ew_vr(op, t, ta, pa, eb, pb, i as nat)), seconds(ew_vr(op, t, ta, pa, eb, pb, i as nat))),
                below_before(ew_vr(op, t, ta, pa, eb, pb, i as nat), t, i as nat),
            decreases n - i,
        {
            proof {
                lemma_elem_len(pb, eb, n as nat, i as nat);
                lemma_vr_ok_at(op, t, ta, pa, eb, pb, n as nat, i as nat);
            }
            let b_elem = b.at_index(i).unwrap();
            let t_i = var.with_index(i).unwrap();
            let ghost mid = *ideal;
            elementwise_op(ideal, &t_i, a, &b_elem, r_inner, op);
            proof {
                let k = i as nat;
                let next = ew_enc(op, child(t, k, tel(t)), ta, pa, eb, slice(pb, eb, k));
                lemma_ew_extends(op, child(t, k, tel(t)), ta, pa, eb, slice(pb, eb, k));
                lemma_step_compose(*old(ideal), mid, *ideal, ew_vr(op, t, ta, pa, eb, pb, k), next, t, k, tel(t));
            }
            i = i + 1;
        }
    }
}


/// `sum_{ib < cb} coef(ir, ia, ib) * a_ia * b_ib` for one row `ia`.
pub open spec fn bil_row(
    pa: Seq<PolyV>,
    pb: Seq<PolyV>,
    coef: spec_fn(int, int, int) -> int,
    ir: int,
    env: Env,
    ia: int,
    cb: nat,
) -> int
    decreases cb,
{
    if cb == 0 {
        0
    } else {
        bil_row(pa, pb, coef, ir, env, ia, (cb - 1) as nat) + coef(ir, ia, cb - 1) * (eval(pa[ia], env) * eval(pb[cb - 1], env))
    }
}

/// `sum_{ia < ca} sum_{ib < nb} coef(ir, ia, ib) * a_ia * b_ib`: the value of
/// result slot `ir` of a bilinear combination of the slots of `a` and `b`.
pub open spec fn bil_sum(
    pa: Seq<PolyV>,
    pb: Seq<PolyV>,
    coef: spec_fn(int, int, int) -> int,
    ir: int,
    env: Env,
    ca: nat,
    nb: nat,
) -> int
    decreases ca,
{
    if ca == 0 {
        0
    } else {
        bil_sum(pa, pb, coef, ir, env, (ca - 1) as nat, nb) + bil_row(pa, pb, coef, ir, env, ca - 1, nb)
    }
}

/// Values of the `n` result slots of a bilinear combination.
pub open spec fn bil_vals(pa: Seq<PolyV>, pb: Seq<PolyV>, coef: spec_fn(int, int, int) -> int, n: nat, ca: nat, nb: nat) -> Seq<spec_fn(Env) -> int> {
    Seq::new(n, |ir: int| (|env: Env| bil_sum(pa, pb, coef, ir, env, ca, nb)))
}

proof fn lemma_acc_step(prev: int, c: int, ea: int, eb: int, m: int)
    requires
        m > 0,
    ensures
        ((prev % m) + ((c % m) * ((ea * eb) % m)) % m) % m == (prev + c * (ea * eb)) % m,
{
    vstd::arithmetic::div_mod::lemma_mul_mod_noop_left(c, (ea * eb) % m, m);
    vstd::arithmetic::div_mod::lemma_mul_mod_noop_right(c, ea * eb, m);
    vstd::arithmetic::div_mod::lemma_add_mod_noop(prev, c * (ea * eb), m);
    vstd::arithmetic::div_mod::lemma_mod_twice(c * (ea * eb), m);
}

/// The integer `v` as a constant polynomial.
fn int_lit(v: i64) -> (r: Polynomial)
    requires
        v > i64::MIN,
    ensures
        forall|env: Env| #[trigger] eval(r@, env) == (v as int) % (modulus() as int),
{
    if v >= 0 {
        let r = Polynomial::lit(&Fe::from_u64(v as u64));
        proof {
            vstd::arithmetic::div_mod::lemma_small_mod(v as nat, modulus());
        }
        r
    } else {
        let w = (-v) as u64;
        let r = Polynomial::lit(&Fe::from_u64(w)).neg();
        proof {
            let md = modulus() as int;
            vstd::arithmetic::div_mod::lemma_small_mod(w as nat, modulus());
            lemma_mod_diff(0, w as int, md);
            vstd::arithmetic::div_mod::lemma_small_mod(0, modulus());
        }
        r
    }
}

/// `out[ir] += c * uv`.
fn accumulate(out: &mut Vec<Polynomial>, ir: usize, c: i64, uv: &Polynomial)
    requires
        ir < old(out)@.len(),
        c > i64::MIN,
    ensures
        final(out)@.len() == old(out)@.len(),
        forall|q: int| 0 <= q < old(out)@.len() && q != ir ==> #[trigger] final(out)@[q] == old(out)@[q],
        forall|env: Env| #[trigger] eval(final(out)@[ir as int]@, env)
            == ((eval(old(out)@[ir as int]@, env) + ((c as int % (modulus() as int)) * eval(uv@, env)) % (modulus() as int)) % (modulus() as int)),
{
    let term = int_lit(c).mul(uv);
    let sum = out[ir].add(&term);
    out.set(ir, sum);
}

/// `prev` as a value already reduced modulo the field order.
proof fn lemma_reduced(x: nat)
    requires
        x < modulus(),
    ensures
        x as int == (x as int) % (modulus() as int),
{
    vstd::arithmetic::div_mod::lemma_small_mod(x, modulus());
}


/// Coefficient of `x^k` in `L_ba(x) * L_bb(x)` for the one-variable
/// Lagrange polynomials `L_0 = 1 - x`, `L_1 = x` of `{0, 1}`.
pub open spec fn lag2(ba: usize, bb: usize, k: usize) -> int {
    if k >= 3 {
        0
    } else if ba == 0 && bb == 0 {
        if k == 0 { 1 } else if k == 1 { -2 } else { 1 }
    } else if ba == 0 || bb == 0 {
        if k == 0 { 0 } else if k == 1 { 1 } else { -1 }
    } else {
        if k == 2 { 1 } else { 0 }
    }
}

/// Product over the first `i` variables of [`lag2`].
pub open spec fn lag2_prefix(ba: Seq<usize>, bb: Seq<usize>, k: Seq<usize>, i: nat) -> int
    decreases i,
{
    if i == 0 {
        1
    } else {
        lag2_prefix(ba, bb, k, (i - 1) as nat) * lag2(ba[i - 1], bb[i - 1], k[i - 1])
    }
}

/// Coefficients of `Mle(n) x Mle(n) -> VPoly(n, mr)`: slot `ir` collects
/// `L_ba * L_bb` at its multi-index.
pub open spec fn mm_coef(n: nat, mr: nat) -> spec_fn(int, int, int) -> int {
    |ir: int, ia: int, ib: int| lag2_prefix(cube_point(ia as nat, n), cube_point(ib as nat, n), mi_seq(n, mr)[ir], n)
}

proof fn lemma_lag2_prefix_bound(ba: Seq<usize>, bb: Seq<usize>, k: Seq<usize>, i: nat)
    ensures
        -(pow2(i) as int) <= lag2_prefix(ba, bb, k, i) <= pow2(i),
    decreases i,
{
    if i == 0 {
        lemma2_to64();
    } else {
        lemma_lag2_prefix_bound(ba, bb, k, (i - 1) as nat);
        lemma_pow2_unfold(i);
        let x = lag2_prefix(ba, bb, k, (i - 1) as nat);
        let y = lag2(ba[i - 1], bb[i - 1], k[i - 1]);
        let p = pow2((i - 1) as nat) as int;
        assert(-(2 * p) <= x * y <= 2 * p) by (nonlinear_arith)
            requires
                -p <= x <= p,
                -2 <= y <= 2,
        ;
    }
}

proof fn lemma_lag2_prefix_zero(ba: Seq<usize>, bb: Seq<usize>, k: Seq<usize>, i: nat, j: nat)
    requires
        i <= j,
        lag2_prefix(ba, bb, k, i) == 0,
    ensures
        lag2_prefix(ba, bb, k, j) == 0,
    decreases j,
{
    if j > i {
        lemma_lag2_prefix_zero(ba, bb, k, i, (j - 1) as nat);
    }
}


/// `2^i <= 2^62` for `i <= 62`.
proof fn lemma_pow2_le62(i: nat)
    requires
        i <= 62,
    ensures
        pow2(i) <= 0x4000_0000_0000_0000,
{
    lemma2_to64();
    lemma_pow2_adds(i, 2);
    if i + 2 < 64 {
        lemma_pow2_strictly_increases(i + 2, 64);
    }
}

/// Slots of `Mle(n) x Mle(n)` in coefficient form over the multi-indices
/// of degree at most `mr`: each pair of evaluations `a_ia * b_ib` is spread
/// over the monomials of `L_ba * L_bb`.
fn mle_mle_polys(pa: &Vec<Polynomial>, pb: &Vec<Polynomial>, n: usize, mr: usize) -> (r: Vec<Polynomial>)
    requires
        pa@.len() == pow2(n as nat),
        pb@.len() == pow2(n as nat),
        pow2(n as nat) <= usize::MAX,
        n <= 62,
    ensures
        r@.len() == binom((n + mr) as nat, n as nat),
        forall|ir: int, env: Env| 0 <= ir < r@.len() ==> #[trigger] eval(r@[ir]@, env)
            == bil_sum(pviews(pa@), pviews(pb@), mm_coef(n as nat, mr as nat), ir, env, pow2(n as nat), pow2(n as nat)) % (modulus() as int),
{
    let ghost (va, vb) = (pviews(pa@), pviews(pb@));
    let ghost coef = mm_coef(n as nat, mr as nat);
    let ghost md = modulus() as int;
    let ghost np = pow2(n as nat);
    let all_b = hypercube(n);
    let r_idx = multi_indices(n, mr);
    let mut out: Vec<Polynomial> = Vec::new();
    let mut t: usize = 0;
    while t < r_idx.len()
        invariant
            t <= r_idx@.len(),
            out@.len() == t,
            forall|q: int| 0 <= q < t ==> #[trigger] out@[q]@ == crate::polyv::lit(0),
        decreases r_idx@.len() - t,
    {
        out.push(Polynomial::zero());
        t = t + 1;
    }
    let mut ia: usize = 0;
    while ia < all_b.len()
        invariant
            ia <= all_b@.len(),
            all_b@.len() == np,
            np == pow2(n as nat),
            forall|q: int| 0 <= q < all_b@.len() ==> #[trigger] all_b@[q]@ == cube_point(q as nat, n as nat),
            mi_views(r_idx@) == mi_seq(n as nat, mr as nat),
            enumerates(mi_seq(n as nat, mr as nat), n as nat, mr as nat),
            pa@.len() == np,
            pb@.len() == np,
            va == pviews(pa@),
            vb == pviews(pb@),
            coef == mm_coef(n as nat, mr as nat),
            md == modulus() as int,
            n <= 62,
            out@.len() == r_idx@.len(),
            forall|q: int, env: Env| 0 <= q < out@.len() ==> #[trigger] eval(out@[q]@, env)
                == bil_sum(va, vb, coef, q, env, ia as nat, np) % md,
        decreases all_b@.len() - ia,
    {
        let mut ib: usize = 0;
        while ib < all_b.len()
            invariant
                ia < all_b@.len(),
                ib <= all_b@.len(),
                all_b@.len() == np,
                forall|q: int| 0 <= q < all_b@.len() ==> #[trigger] all_b@[q]@ == cube_point(q as nat, n as nat),
                mi_views(r_idx@) == mi_seq(n as nat, mr as nat),
                enumerates(mi_seq(n as nat, mr as nat), n as nat, mr as nat),
                pa@.len() == np,
                pb@.len() == np,
                va == pviews(pa@),
                vb == pviews(pb@),
                coef == mm_coef(n as nat, mr as nat),
                md == modulus() as int,
                n <= 62,
                out@.len() == r_idx@.len(),
                forall|q: int, env: Env| 0 <= q < out@.len() ==> #[trigger] eval(out@[q]@, env)
                    == (bil_sum(va, vb, coef, q, env, ia as nat, np) + bil_row(va, vb, coef, q, env, ia as int, ib as nat)) % md,
            decreases all_b@.len() - ib,
        {
            let uv = pa[ia].mul(&pb[ib]);
            let ba = &all_b[ia];
            let bb = &all_b[ib];
            let mut ir: usize = 0;
            while ir < r_idx.len()
                invariant
                    ia < all_b@.len(),
                    ib < all_b@.len(),
                    ir <= r_idx@.len(),
                    ba@ == cube_point(ia as nat, n as nat),
                    bb@ == cube_point(ib as nat, n as nat),
                    mi_views(r_idx@) == mi_seq(n as nat, mr as nat),
                    enumerates(mi_seq(n as nat, mr as nat), n as nat, mr as nat),
                    all_b@.len() == np,
                    pa@.len() == np,
                    pb@.len() == np,
                    va == pviews(pa@),
                    vb == pviews(pb@),
                    crate::polyv::is_prod(uv@, va[ia as int], vb[ib as int]),
                    coef == mm_coef(n as nat, mr as nat),
                    md == modulus() as int,
                    n <= 62,
                    out@.len() == r_idx@.len(),
                    forall|q: int, env: Env| 0 <= q < ir ==> #[trigger] eval(out@[q]@, env)
                        == (bil_sum(va, vb, coef, q, env, ia as nat, np) + bil_row(va, vb, coef, q, env, ia as int, (ib + 1) as nat)) % md,
                    forall|q: int, env: Env| ir <= q < out@.len() ==> #[trigger] eval(out@[q]@, env)
                        == (bil_sum(va, vb, coef, q, env, ia as nat, np) + bil_row(va, vb, coef, q, env, ia as int, ib as nat)) % md,
                decreases r_idx@.len() - ir,
            {
                let k = &r_idx[ir];
                proof {
                    assert(mi_views(r_idx@)[ir as int] == k@);
                    assert(is_multi_index(mi_seq(n as nat, mr as nat)[ir as int], n as nat, mr as nat));
                }
                let ghost kk = k@;
                let mut scalar: i64 = 1;
                let mut i: usize = 0;
                while i < n
                    invariant_except_break
                        i <= n,
                        n <= 62,
                        ba@.len() == n,
                        bb@.len() == n,
                        kk.len() == n,
                        k@ == kk,
                        scalar == lag2_prefix(ba@, bb@, kk, i as nat),
                    ensures
                        scalar == lag2_prefix(ba@, bb@, kk, n as nat),
                    decreases n - i,
                {
                    proof {
                        lemma_lag2_prefix_bound(ba@, bb@, kk, i as nat);
                        lemma_pow2_strictly_increases(i as nat, 63);
                        lemma2_to64();
                    }
                    let (x, y, z) = (ba[i], bb[i], k[i]);
                    let c: i64 = if z >= 3 {
                        0
                    } else if x == 0 && y == 0 {
                        if z == 0 { 1 } else if z == 1 { -2 } else { 1 }
                    } else if x == 0 || y == 0 {
                        if z == 0 { 0 } else if z == 1 { 1 } else { -1 }
                    } else {
                        if z == 2 { 1 } else { 0 }
                    };
                    assert(c == lag2(ba@[i as int], bb@[i as int], kk[i as int]));
                    proof {
                        lemma_pow2_le62((i + 1) as nat);
                        lemma_pow2_unfold((i + 1) as nat);
                        let p = pow2(i as nat) as int;
                        assert(-(2 * p) <= (scalar as int) * (c as int) <= 2 * p) by (nonlinear_arith)
                            requires
                                -p <= scalar <= p,
                                -2 <= c <= 2,
                        ;
                    }
                    if c == 0 {
                        scalar = 0;
                        proof {
                            lemma_lag2_prefix_zero(ba@, bb@, kk, (i + 1) as nat, n as nat);
                        }
                        break;
                    }
                    scalar = scalar * c;
                    i = i + 1;
                }
                proof {
                    lemma_lag2_prefix_bound(ba@, bb@, kk, n as nat);
                    lemma_pow2_le62(n as nat);
                    assert(scalar == coef(ir as int, ia as int, ib as int));
                    assert(scalar > i64::MIN);
                }
                let ghost cv = coef(ir as int, ia as int, ib as int);
                let ghost before = out@;
                if scalar != 0 {
                    accumulate(&mut out, ir, scalar, &uv);
                }
                proof {
                    assert forall|env: Env| #[trigger] eval(out@[ir as int]@, env)
                        == (bil_sum(va, vb, coef, ir as int, env, ia as nat, np) + bil_row(va, vb, coef, ir as int, env, ia as int, (ib + 1) as nat)) % md by {
                        let prev = bil_sum(va, vb, coef, ir as int, env, ia as nat, np) + bil_row(va, vb, coef, ir as int, env, ia as int, ib as nat);
                        let ea = eval(va[ia as int], env) as int;
                        let eb = eval(vb[ib as int], env) as int;
                        assert(bil_row(va, vb, coef, ir as int, env, ia as int, (ib + 1) as nat)
                            == bil_row(va, vb, coef, ir as int, env, ia as int, ib as nat) + coef(ir as int, ia as int, ib as int) * (ea * eb));
                        if scalar != 0 {
                            assert(eval(uv@, env) == (ea * eb) % md);
                            lemma_acc_step(prev, scalar as int, ea, eb, md);
                        } else {
                            assert(cv == 0);
                            assert(cv * (ea * eb) == 0) by (nonlinear_arith)
                                requires
                                    cv == 0,
                            ;
                        }
                    }
                }
                ir = ir + 1;
            }
            ib = ib + 1;
        }
        ia = ia + 1;
    }
    out
}


/// Coefficient of `x^k` in `L_ba(x) * x^kb`.
pub open spec fn shift1(ba: usize, kb: usize, k: usize) -> int {
    if k < kb || k - kb >= 2 {
        0
    } else {
        lag1(ba, (k - kb) as usize)
    }
}

/// Product over the first `i` variables of [`shift1`].
pub open spec fn shift_prefix(ba: Seq<usize>, kb: Seq<usize>, k: Seq<usize>, i: nat) -> int
    decreases i,
{
    if i == 0 {
        1
    } else {
        shift_prefix(ba, kb, k, (i - 1) as nat) * shift1(ba[i - 1], kb[i - 1], k[i - 1])
    }
}

/// Coefficients of `Mle(n) x VPoly(n, mb) -> VPoly(n, mr)`: slot `ir`
/// collects `L_ba * x^kb` at its multi-index.
pub open spec fn mv_coef(n: nat, mb: nat, mr: nat) -> spec_fn(int, int, int) -> int {
    |ir: int, ia: int, ib: int| shift_prefix(cube_point(ia as nat, n), mi_seq(n, mb)[ib], mi_seq(n, mr)[ir], n)
}

proof fn lemma_shift_prefix_unit(ba: Seq<usize>, kb: Seq<usize>, k: Seq<usize>, i: nat)
    ensures
        -1 <= shift_prefix(ba, kb, k, i) <= 1,
    decreases i,
{
    if i > 0 {
        lemma_shift_prefix_unit(ba, kb, k, (i - 1) as nat);
        let x = shift_prefix(ba, kb, k, (i - 1) as nat);
        let y = shift1(ba[i - 1], kb[i - 1], k[i - 1]);
        assert(-1 <= x * y <= 1) by (nonlinear_arith)
            requires
                -1 <= x <= 1,
                -1 <= y <= 1,
        ;
    }
}

proof fn lemma_shift_prefix_zero(ba: Seq<usize>, kb: Seq<usize>, k: Seq<usize>, i: nat, j: nat)
    requires
        i <= j,
        shift_prefix(ba, kb, k, i) == 0,
    ensures
        shift_prefix(ba, kb, k, j) == 0,
    decreases j,
{
    if j > i {
        lemma_shift_prefix_zero(ba, kb, k, i, (j - 1) as nat);
    }
}

/// Slots of `Mle(n) x VPoly(n, mb)` in coefficient form over the
/// multi-indices of degree at most `mr`: each `mle_ia * vpoly_ib` is spread
/// over the monomials of `L_ba * x^kb`.
fn mle_vpoly_polys(pm: &Vec<Polynomial>, pv: &Vec<Polynomial>, n: usize, mb: usize, mr: usize) -> (r: Vec<Polynomial>)
    requires
        pm@.len() == pow2(n as nat),
        pv@.len() >= binom((n + mb) as nat, n as nat),
        pow2(n as nat) <= usize::MAX,
    ensures
        r@.len() == binom((n + mr) as nat, n as nat),
        forall|ir: int, env: Env| 0 <= ir < r@.len() ==> #[trigger] eval(r@[ir]@, env)
            == bil_sum(pviews(pm@), pviews(pv@), mv_coef(n as nat, mb as nat, mr as nat), ir, env, pow2(n as nat), binom((n + mb) as nat, n as nat)) % (modulus() as int),
{
    let ghost (va, vb) = (pviews(pm@), pviews(pv@));
    let ghost coef = mv_coef(n as nat, mb as nat, mr as nat);
    let ghost md = modulus() as int;
    let ghost np = pow2(n as nat);
    let ghost nb = binom((n + mb) as nat, n as nat);
    let all_b = hypercube(n);
    let b_idx = multi_indices(n, mb);
    let r_idx = multi_indices(n, mr);
    let mut out: Vec<Polynomial> = Vec::new();
    let mut t: usize = 0;
    while t < r_idx.len()
        invariant
            t <= r_idx@.len(),
            out@.len() == t,
            forall|q: int| 0 <= q < t ==> #[trigger] out@[q]@ == crate::polyv::lit(0),
        decreases r_idx@.len() - t,
    {
        out.push(Polynomial::zero());
        t = t + 1;
    }
    let mut ia: usize = 0;
    while ia < all_b.len()
        invariant
            ia <= all_b@.len(),
            all_b@.len() == np,
            np == pow2(n as nat),
            forall|q: int| 0 <= q < all_b@.len() ==> #[trigger] all_b@[q]@ == cube_point(q as nat, n as nat),
            mi_views(r_idx@) == mi_seq(n as nat, mr as nat),
            enumerates(mi_seq(n as nat, mr as nat), n as nat, mr as nat),
            mi_views(b_idx@) == mi_seq(n as nat, mb as nat),
            enumerates(mi_seq(n as nat, mb as nat), n as nat, mb as nat),
            b_idx@.len() == nb,
            pm@.len() == np,
            pv@.len() >= nb,
            va == pviews(pm@),
            vb == pviews(pv@),
            coef == mv_coef(n as nat, mb as nat, mr as nat),
            md == modulus() as int,
            out@.len() == r_idx@.len(),
            forall|q: int, env: Env| 0 <= q < out@.len() ==> #[trigger] eval(out@[q]@, env)
                == bil_sum(va, vb, coef, q, env, ia as nat, nb) % md,
        decreases all_b@.len() - ia,
    {
        let mut ib: usize = 0;
        while ib < b_idx.len()
            invariant
                ia < all_b@.len(),
                ib <= b_idx@.len(),
                all_b@.len() == np,
                forall|q: int| 0 <= q < all_b@.len() ==> #[trigger] all_b@[q]@ == cube_point(q as nat, n as nat),
                mi_views(r_idx@) == mi_seq(n as nat, mr as nat),
                enumerates(mi_seq(n as nat, mr as nat), n as nat, mr as nat),
                mi_views(b_idx@) == mi_seq(n as nat, mb as nat),
                enumerates(mi_seq(n as nat, mb as nat), n as nat, mb as nat),
                b_idx@.len() == nb,
                pm@.len() == np,
                pv@.len() >= nb,
                va == pviews(pm@),
                vb == pviews(pv@),
                coef == mv_coef(n as nat, mb as nat, mr as nat),
                md == modulus() as int,
                out@.len() == r_idx@.len(),
                forall|q: int, env: Env| 0 <= q < out@.len() ==> #[trigger] eval(out@[q]@, env)
                    == (bil_sum(va, vb, coef, q, env, ia as nat, nb) + bil_row(va, vb, coef, q, env, ia as int, ib as nat)) % md,
            decreases b_idx@.len() - ib,
        {
            let uv = pm[ia].mul(&pv[ib]);
            let ba = &all_b[ia];
            let kb = &b_idx[ib];
            proof {
                assert(mi_views(b_idx@)[ib as int] == kb@);
                assert(is_multi_index(mi_seq(n as nat, mb as nat)[ib as int], n as nat, mb as nat));
            }
            let mut ir: usize = 0;
            while ir < r_idx.len()
                invariant
                    ia < all_b@.len(),
                    ib < b_idx@.len(),
                    ir <= r_idx@.len(),
                    ba@ == cube_point(ia as nat, n as nat),
                    kb@ == mi_seq(n as nat, mb as nat)[ib as int],
                    kb@.len() == n,
                    mi_views(r_idx@) == mi_seq(n as nat, mr as nat),
                    enumerates(mi_seq(n as nat, mr as nat), n as nat, mr as nat),
                    all_b@.len() == np,
                    b_idx@.len() == nb,
                    pm@.len() == np,
                    pv@.len() >= nb,
                    va == pviews(pm@),
                    vb == pviews(pv@),
                    crate::polyv::is_prod(uv@, va[ia as int], vb[ib as int]),
                    coef == mv_coef(n as nat, mb as nat, mr as nat),
                    md == modulus() as int,
                    out@.len() == r_idx@.len(),
                    forall|q: int, env: Env| 0 <= q < ir ==> #[trigger] eval(out@[q]@, env)
                        == (bil_sum(va, vb, coef, q, env, ia as nat, nb) + bil_row(va, vb, coef, q, env, ia as int, (ib + 1) as nat)) % md,
                    forall|q: int, env: Env| ir <= q < out@.len() ==> #[trigger] eval(out@[q]@, env)
                        == (bil_sum(va, vb, coef, q, env, ia as nat, nb) + bil_row(va, vb, coef, q, env, ia as int, ib as nat)) % md,
                decreases r_idx@.len() - ir,
            {
                let k = &r_idx[ir];
                proof {
                    assert(mi_views(r_idx@)[ir as int] == k@);
                    assert(is_multi_index(mi_seq(n as nat, mr as nat)[ir as int], n as nat, mr as nat));
                }
                let ghost kk = k@;
                let mut scalar: i64 = 1;
                let mut i: usize = 0;
                while i < n
                    invariant_except_break
                        i <= n,
                        ba@.len() == n,
                        kb@.len() == n,
                        kk.len() == n,
                        k@ == kk,
                        scalar == shift_prefix(ba@, kb@, kk, i as nat),
                    ensures
                        scalar == shift_prefix(ba@, kb@, kk, n as nat),
                    decreases n - i,
                {
                    proof {
                        lemma_shift_prefix_unit(ba@, kb@, kk, i as nat);
                    }
                    let (x, y, z) = (ba[i], kb[i], k[i]);
                    let c: i64 = if z < y || z - y >= 2 {
                        0
                    } else if x == 0 {
                        if z - y == 0 { 1 } else { -1 }
                    } else {
                        if z - y == 0 { 0 } else { 1 }
                    };
                    assert(c == shift1(ba@[i as int], kb@[i as int], kk[i as int]));
                    if c == 0 {
                        scalar = 0;
                        proof {
                            lemma_shift_prefix_zero(ba@, kb@, kk, (i + 1) as nat, n as nat);
                        }
                        break;
                    }
                    scalar = scalar * c;
                    i = i + 1;
                }
                proof {
                    lemma_shift_prefix_unit(ba@, kb@, kk, n as nat);
                    assert(scalar == coef(ir as int, ia as int, ib as int));
                }
                let ghost cv = coef(ir as int, ia as int, ib as int);
                if scalar != 0 {
                    accumulate(&mut out, ir, scalar, &uv);
                }
                proof {
                    assert forall|env: Env| #[trigger] eval(out@[ir as int]@, env)
                        == (bil_sum(va, vb, coef, ir as int, env, ia as nat, nb) + bil_row(va, vb, coef, ir as int, env, ia as int, (ib + 1) as nat)) % md by {
                        let prev = bil_sum(va, vb, coef, ir as int, env, ia as nat, nb) + bil_row(va, vb, coef, ir as int, env, ia as int, ib as nat);
                        let ea = eval(va[ia as int], env) as int;
                        let eb = eval(vb[ib as int], env) as int;
                        assert(bil_row(va, vb, coef, ir as int, env, ia as int, (ib + 1) as nat)
                            == bil_row(va, vb, coef, ir as int, env, ia as int, ib as nat) + cv * (ea * eb));
                        if scalar != 0 {
                            assert(eval(uv@, env) == (ea * eb) % md);
                            lemma_acc_step(prev, scalar as int, ea, eb, md);
                        } else {
                            assert(cv * (ea * eb) == 0) by (nonlinear_arith)
                                requires
                                    cv == 0,
                            ;
                        }
                    }
                }
                ir = ir + 1;
            }
            ib = ib + 1;
        }
        ia = ia + 1;
    }
    out
}


/// Entrywise sum of two index vectors.
pub open spec fn idx_add(x: Seq<usize>, y: Seq<usize>) -> Seq<usize> {
    Seq::new(x.len(), |i: int| (x[i] + y[i]) as usize)
}

/// Coefficients of the product of `VPoly(n, ma)` and `VPoly(n, mb)` over
/// the multi-indices of degree at most `mr`: `a_ka * b_kb` lands at
/// `ka + kb`.
pub open spec fn conv_coef(n: nat, ma: nat, mb: nat, mr: nat) -> spec_fn(int, int, int) -> int {
    |ir: int, ia: int, ib: int| if idx_add(mi_seq(n, ma)[ia], mi_seq(n, mb)[ib]) == mi_seq(n, mr)[ir] { 1int } else { 0int }
}

pub proof fn lemma_entry_le_sum(x: Seq<usize>, i: int)
    requires
        0 <= i < x.len(),
    ensures
        x[i] <= seq_sum(x),
    decreases x.len(),
{
    if i > 0 {
        lemma_entry_le_sum(x.drop_first(), i - 1);
    }
}

proof fn lemma_sum_idx_add(x: Seq<usize>, y: Seq<usize>)
    requires
        x.len() == y.len(),
        seq_sum(x) + seq_sum(y) <= usize::MAX,
    ensures
        seq_sum(idx_add(x, y)) == seq_sum(x) + seq_sum(y),
    decreases x.len(),
{
    if x.len() > 0 {
        lemma_entry_le_sum(x, 0);
        lemma_entry_le_sum(y, 0);
        lemma_sum_idx_add(x.drop_first(), y.drop_first());
        assert(idx_add(x, y).drop_first() =~= idx_add(x.drop_first(), y.drop_first()));
    }
}

fn add_index(x: &Vec<usize>, y: &Vec<usize>) -> (r: Vec<usize>)
    requires
        x@.len() == y@.len(),
        seq_sum(x@) + seq_sum(y@) <= usize::MAX,
    ensures
        r@ == idx_add(x@, y@),
{
    let mut out: Vec<usize> = Vec::new();
    let mut i: usize = 0;
    while i < x.len()
        invariant
            i <= x@.len(),
            x@.len() == y@.len(),
            seq_sum(x@) + seq_sum(y@) <= usize::MAX,
            out@.len() == i,
            forall|t: int| 0 <= t < i ==> #[trigger] out@[t] == idx_add(x@, y@)[t],
        decreases x@.len() - i,
    {
        proof {
            lemma_entry_le_sum(x@, i as int);
            lemma_entry_le_sum(y@, i as int);
        }
        out.push(x[i] + y[i]);
        i = i + 1;
    }
    assert(out@ =~= idx_add(x@, y@));
    out
}

/// Coefficients of the product of `VPoly(n, ma)` and `VPoly(n, mb)` as a
/// `VPoly(n, mr)`: the convolution `sum_{ka + kb = k} a_ka * b_kb`.
fn vpoly_vpoly_polys(pa: &Vec<Polynomial>, pb: &Vec<Polynomial>, n: usize, ma: usize, mb: usize, mr: usize) -> (r: Vec<Polynomial>)
    requires
        pa@.len() == binom((n + ma) as nat, n as nat),
        pb@.len() == binom((n + mb) as nat, n as nat),
        n == 0 || ma + mb <= mr,
    ensures
        r@.len() == binom((n + mr) as nat, n as nat),
        forall|ir: int, env: Env| 0 <= ir < r@.len() ==> #[trigger] eval(r@[ir]@, env)
            == bil_sum(pviews(pa@), pviews(pb@), conv_coef(n as nat, ma as nat, mb as nat, mr as nat), ir, env, pa@.len(), pb@.len()) % (modulus() as int),
{
    let ghost (va, vb) = (pviews(pa@), pviews(pb@));
    let ghost coef = conv_coef(n as nat, ma as nat, mb as nat, mr as nat);
    let ghost md = modulus() as int;
    let ghost (na, nb) = (pa@.len(), pb@.len());
    let ghost (sa, sb, sr) = (mi_seq(n as nat, ma as nat), mi_seq(n as nat, mb as nat), mi_seq(n as nat, mr as nat));
    let a_idx = multi_indices(n, ma);
    let b_idx = multi_indices(n, mb);
    let r_idx = multi_indices(n, mr);
    let mut out: Vec<Polynomial> = Vec::new();
    let mut t: usize = 0;
    while t < r_idx.len()
        invariant
            t <= r_idx@.len(),
            out@.len() == t,
            forall|q: int| 0 <= q < t ==> #[trigger] out@[q]@ == crate::polyv::lit(0),
        decreases r_idx@.len() - t,
    {
        out.push(Polynomial::zero());
        t = t + 1;
    }
    let mut ia: usize = 0;
    while ia < a_idx.len()
        invariant
            ia <= a_idx@.len(),
            a_idx@.len() == na,
            b_idx@.len() == nb,
            mi_views(a_idx@) == sa,
            mi_views(b_idx@) == sb,
            mi_views(r_idx@) == sr,
            sa == mi_seq(n as nat, ma as nat),
            sb == mi_seq(n as nat, mb as nat),
            sr == mi_seq(n as nat, mr as nat),
            enumerates(sa, n as nat, ma as nat),
            enumerates(sb, n as nat, mb as nat),
            enumerates(sr, n as nat, mr as nat),
            n == 0 || ma + mb <= mr,
            pa@.len() == na,
            pb@.len() == nb,
            va == pviews(pa@),
            vb == pviews(pb@),
            coef == conv_coef(n as nat, ma as nat, mb as nat, mr as nat),
            md == modulus() as int,
            out@.len() == r_idx@.len(),
            forall|q: int, env: Env| 0 <= q < out@.len() ==> #[trigger] eval(out@[q]@, env)
                == bil_sum(va, vb, coef, q, env, ia as nat, nb) % md,
        decreases a_idx@.len() - ia,
    {
        let mut ib: usize = 0;
        while ib < b_idx.len()
            invariant
                ia < a_idx@.len(),
                ib <= b_idx@.len(),
                a_idx@.len() == na,
                b_idx@.len() == nb,
                mi_views(a_idx@) == sa,
                mi_views(b_idx@) == sb,
                mi_views(r_idx@) == sr,
                sa == mi_seq(n as nat, ma as nat),
                sb == mi_seq(n as nat, mb as nat),
                sr == mi_seq(n as nat, mr as nat),
                enumerates(sa, n as nat, ma as nat),
                enumerates(sb, n as nat, mb as nat),
                enumerates(sr, n as nat, mr as nat),
                n == 0 || ma + mb <= mr,
                pa@.len() == na,
                pb@.len() == nb,
                va == pviews(pa@),
                vb == pviews(pb@),
                coef == conv_coef(n as nat, ma as nat, mb as nat, mr as nat),
                md == modulus() as int,
                out@.len() == r_idx@.len(),
                forall|q: int, env: Env| 0 <= q < out@.len() ==> #[trigger] eval(out@[q]@, env)
                    == (bil_sum(va, vb, coef, q, env, ia as nat, nb) + bil_row(va, vb, coef, q, env, ia as int, ib as nat)) % md,
            decreases b_idx@.len() - ib,
        {
            let ka = &a_idx[ia];
            let kb = &b_idx[ib];
            proof {
                assert(mi_views(a_idx@)[ia as int] == ka@);
                assert(mi_views(b_idx@)[ib as int] == kb@);
                assert(is_multi_index(sa[ia as int], n as nat, ma as nat));
                assert(is_multi_index(sb[ib as int], n as nat, mb as nat));
                if n == 0 {
                    assert(ka@ =~= Seq::<usize>::empty());
                    assert(kb@ =~= Seq::<usize>::empty());
                }
                lemma_sum_idx_add(ka@, kb@);
            }
            let k = add_index(ka, kb);
            let found = find_index(r_idx.as_slice(), &k);
            let ir = match found {
                Some(p) => p,
                None => {
                    proof {
                        assert(is_multi_index(k@, n as nat, mr as nat));
                        let q = choose|q: int| 0 <= q < sr.len() && #[trigger] sr[q] == k@;
                        lemma_position_exists(sr, k@, q);
                        assert(false);
                    }
                    0
                },
            };
            proof {
                lemma_position_some(sr, k@);
                assert(sr[ir as int] == k@);
            }
            let uv = pa[ia].mul(&pb[ib]);
            let ghost before = out@;
            accumulate(&mut out, ir, 1, &uv);
            proof {
                assert forall|q: int, env: Env| 0 <= q < out@.len() implies #[trigger] eval(out@[q]@, env)
                    == (bil_sum(va, vb, coef, q, env, ia as nat, nb) + bil_row(va, vb, coef, q, env, ia as int, (ib + 1) as nat)) % md by {
                    let prev = bil_sum(va, vb, coef, q, env, ia as nat, nb) + bil_row(va, vb, coef, q, env, ia as int, ib as nat);
                    let ea = eval(va[ia as int], env) as int;
                    let eb = eval(vb[ib as int], env) as int;
                    assert(bil_row(va, vb, coef, q, env, ia as int, (ib + 1) as nat)
                        == bil_row(va, vb, coef, q, env, ia as int, ib as nat) + coef(q, ia as int, ib as int) * (ea * eb));
                    if q == ir {
                        assert(coef(q, ia as int, ib as int) == 1);
                        assert(eval(uv@, env) == (ea * eb) % md);
                        lemma_acc_step(prev, 1, ea, eb, md);
                    } else {
                        if sr[q] == k@ {
                            lemma_enumeration_position(sr, n as nat, mr as nat, q, ir as int);
                        }
                        assert(coef(q, ia as int, ib as int) == 0);
                        assert(out@[q] == before[q]);
                    }
                }
            }
            ib = ib + 1;
        }
        ia = ia + 1;
    }
    out
}


/// The field scalar shape.
pub open spec fn scalar_t() -> TypV {
    TypV::Base(ABase::Scalar)
}

/// Values of a product of two non-vector operands: a polynomial times a
/// scalar slot by slot, `Mle x Mle` and `Mle x VPoly` through the Lagrange
/// basis, coefficient forms by convolution, other values slot by slot.
pub open spec fn mul_leaf_vals(ta: TypV, pa: Seq<PolyV>, tb: TypV, pb: Seq<PolyV>, tr: TypV) -> Seq<spec_fn(Env) -> int> {
    if tb == scalar_t() && is_poly_typ(ta) {
        Seq::new(pa.len(), |j: int| (|env: Env| (eval(pa[j], env) * eval(pb[0], env)) as int))
    } else if ta == scalar_t() && is_poly_typ(tb) {
        Seq::new(pb.len(), |j: int| (|env: Env| (eval(pa[0], env) * eval(pb[j], env)) as int))
    } else if ta is Mle && tb is Mle {
        let n = ta->Mle_0;
        let mr = tr->VPoly_1;
        bil_vals(pa, pb, mm_coef(n, mr), binom(n + mr, n), pow2(n), pow2(n))
    } else if ta is Mle && tb is VPoly {
        let n = ta->Mle_0;
        let mb = tb->VPoly_1;
        let mr = tr->VPoly_1;
        bil_vals(pa, pb, mv_coef(n, mb, mr), binom(n + mr, n), pow2(n), binom(n + mb, n))
    } else if ta is VPoly && tb is Mle {
        let n = tb->Mle_0;
        let ma = ta->VPoly_1;
        let mr = tr->VPoly_1;
        bil_vals(pb, pa, mv_coef(n, ma, mr), binom(n + mr, n), pow2(n), binom(n + ma, n))
    } else if is_poly_typ(ta) && is_poly_typ(tb) {
        let (n, ma) = poly_shape(ta)->0;
        let mb = (poly_shape(tb)->0).1;
        let mr = (poly_shape(tr)->0).1;
        bil_vals(pa, pb, conv_coef(n, ma, mb, mr), binom(n + mr, n), pa.len(), pb.len())
    } else {
        Seq::new(if pa.len() <= pb.len() { pa.len() } else { pb.len() }, |j: int| (|env: Env| (eval(pa[j], env) * eval(pb[j], env)) as int))
    }
}

/// Non-vector operands multiplication handles into target `t`.
pub open spec fn mul_leaf_ok(t: VarV, ta: TypV, pa: Seq<PolyV>, tb: TypV, pb: Seq<PolyV>) -> bool {
    let tr = t.typ;
    &&& slots_ok(tr)
    &&& pa.len() == plen(ta)
    &&& pb.len() == plen(tb)
    &&& slot_list(t).len() == mul_leaf_vals(ta, pa, tb, pb, tr).len()
    &&& if tb == scalar_t() && is_poly_typ(ta) {
        true
    } else if ta == scalar_t() && is_poly_typ(tb) {
        true
    } else if ta is Mle && tb is Mle {
        &&& ta->Mle_0 == tb->Mle_0
        &&& ta->Mle_0 <= 62
        &&& tr is VPoly
    } else if ta is Mle && tb is VPoly {
        &&& tr == TypV::VPoly(ta->Mle_0, tb->VPoly_1 + ta->Mle_0)
        &&& binom(ta->Mle_0 + tb->VPoly_1, ta->Mle_0) <= pb.len()
    } else if ta is VPoly && tb is Mle {
        &&& tr == TypV::VPoly(tb->Mle_0, ta->VPoly_1 + tb->Mle_0)
        &&& binom(tb->Mle_0 + ta->VPoly_1, tb->Mle_0) <= pa.len()
    } else if is_poly_typ(ta) && is_poly_typ(tb) {
        &&& poly_shape(ta) is Some
        &&& poly_shape(tb) is Some
        &&& poly_shape(tr) is Some
        &&& (poly_shape(ta)->0).0 == (poly_shape(tb)->0).0
        &&& (poly_shape(ta)->0).0 == (poly_shape(tr)->0).0
        &&& ((poly_shape(ta)->0).0 == 0 || (poly_shape(ta)->0).1 + (poly_shape(tb)->0).1 <= (poly_shape(tr)->0).1)
    } else {
        !is_poly_typ(ta) && !is_poly_typ(tb)
    }
}

/// Multiplication of two non-vector operands into `target`.
pub fn mul_leaf(ideal: &mut Ideal, target: &Var, a: &PolySource, b: &PolySource, r_typ: &ATyp)
    requires
        old(ideal).wf(),
        target.typ@ == r_typ@,
        mul_leaf_ok(target@, a.typ@, a.pv(), b.typ@, b.pv()),
    ensures
        encodes(*old(ideal), *final(ideal), slot_list(target@), mul_leaf_vals(a.typ@, a.pv(), b.typ@, b.pv(), r_typ@)),
{
    let ghost (ta, pa, tb, pb, tr) = (a.typ@, a.pv(), b.typ@, b.pv(), r_typ@);
    let ghost want = mul_leaf_vals(ta, pa, tb, pb, tr);
    let ghost md = modulus() as int;
    let total_a = a.polys.len();
    let total_b = b.polys.len();
    let b_scalar = match &b.typ {
        ATyp::Base(ABase::Scalar) => true,
        _ => false,
    };
    let a_scalar = match &a.typ {
        ATyp::Base(ABase::Scalar) => true,
        _ => false,
    };
    let out: Vec<Polynomial>;
    if b_scalar && a.is_poly() {
        let mut prods: Vec<Polynomial> = Vec::new();
        let mut j: usize = 0;
        while j < a.polys.len()
            invariant
                j <= a.polys@.len(),
                b.polys@.len() == 1,
                prods@.len() == j,
                forall|q: int| 0 <= q < j ==> crate::polyv::is_prod(#[trigger] prods@[q]@, a.polys@[q]@, b.polys@[0]@),
            decreases a.polys@.len() - j,
        {
            prods.push(a.polys[j].mul(&b.polys[0]));
            j = j + 1;
        }
        out = prods;
    } else if a_scalar && b.is_poly() {
        let mut prods: Vec<Polynomial> = Vec::new();
        let mut j: usize = 0;
        while j < b.polys.len()
            invariant
                j <= b.polys@.len(),
                a.polys@.len() == 1,
                prods@.len() == j,
                forall|q: int| 0 <= q < j ==> crate::polyv::is_prod(#[trigger] prods@[q]@, a.polys@[0]@, b.polys@[q]@),
            decreases b.polys@.len() - j,
        {
            prods.push(a.polys[0].mul(&b.polys[j]));
            j = j + 1;
        }
        out = prods;
    } else {
        match (&a.typ, &b.typ) {
            (ATyp::Mle(n), ATyp::Mle(_)) => {
                let mr = match r_typ {
                    ATyp::VPoly(_, m) => *m,
                    _ => {
                        proof {
                            assert(false);
                        }
                        0
                    },
                };
                out = mle_mle_polys(&a.polys, &b.polys, *n, mr);
            },
            (ATyp::Mle(n), ATyp::VPoly(_, mb)) => {
                let mr = match r_typ {
                    ATyp::VPoly(_, m) => *m,
                    _ => {
                        proof {
                            assert(false);
                        }
                        0
                    },
                };
                out = mle_vpoly_polys(&a.polys, &b.polys, *n, *mb, mr);
            },
            (ATyp::VPoly(_, ma), ATyp::Mle(n)) => {
                let mr = match r_typ {
                    ATyp::VPoly(_, m) => *m,
                    _ => {
                        proof {
                            assert(false);
                        }
                        0
                    },
                };
                out = mle_vpoly_polys(&b.polys, &a.polys, *n, *ma, mr);
            },
            _ => {
                if a.is_poly() && b.is_poly() {
                    let (n, ma) = PolySource::poly_shape_static(&a.typ).unwrap();
                    let (_, mb) = PolySource::poly_shape_static(&b.typ).unwrap();
                    let (_, mr) = PolySource::poly_shape_static(r_typ).unwrap();
                    proof {
                        if ta is Uni {
                            crate::combinatorics::lemma_binom_one((1 + ma) as nat);
                        }
                        if tb is Uni {
                            crate::combinatorics::lemma_binom_one((1 + mb) as nat);
                        }
                    }
                    out = vpoly_vpoly_polys(&a.polys, &b.polys, n, ma, mb, mr);
                } else {
                    let mut prods: Vec<Polynomial> = Vec::new();
                    let len = if a.polys.len() <= b.polys.len() { a.polys.len() } else { b.polys.len() };
                    let mut j: usize = 0;
                    while j < len
                        invariant
                            j <= len,
                            len <= a.polys@.len(),
                            len <= b.polys@.len(),
                            prods@.len() == j,
                            forall|q: int| 0 <= q < j ==> crate::polyv::is_prod(#[trigger] prods@[q]@, a.polys@[q]@, b.polys@[q]@),
                        decreases len - j,
                    {
                        prods.push(a.polys[j].mul(&b.polys[j]));
                        j = j + 1;
                    }
                    out = prods;
                }
            },
        }
    }
    proof {
        assert forall|t: int, env: Env| 0 <= t < want.len() implies #[trigger] eval(out@[t]@, env) == want[t](env) % md by {
            if tb == scalar_t() && is_poly_typ(ta) {
                assert(eval(pa[t], env) == eval(a.polys@[t]@, env));
            } else if ta == scalar_t() && is_poly_typ(tb) {
                assert(eval(pb[t], env) == eval(b.polys@[t]@, env));
            } else if !(ta is Mle || ta is VPoly || ta is Uni) && !(tb is Mle || tb is VPoly || tb is Uni) {
                assert(eval(pa[t], env) == eval(a.polys@[t]@, env));
                assert(eval(pb[t], env) == eval(b.polys@[t]@, env));
            }
        }
    }
    let ghost got = poly_vals(pviews(out@));
    link_to_polys(ideal, target, out);
    proof {
        assert forall|t: int, env: Env| 0 <= t < want.len() implies #[trigger] (got[t](env) % md) == want[t](env) % md by {
            vstd::arithmetic::div_mod::lemma_mod_twice(want[t](env), md);
        }
        lemma_encodes_vals(*old(ideal), *ideal, slot_list(target@), got, want);
    }
}


/// Addition or subtraction of `a` and `b` into `var`, element by element
/// over vectors; see [`elementwise_op`].
pub fn add_sub_op_inner(ideal: &mut Ideal, var: &Var, a: &PolySource, b: &PolySource, r_typ: &ATyp, op: BinOp)
    requires
        old(ideal).wf(),
        op is Add || op is Sub,
        var.typ@ == r_typ@,
        ew_ok(slot_op(op), var@, a.typ@, a.pv(), b.typ@, b.pv()),
    ensures
        encodes(
            *old(ideal),
            *final(ideal),
            firsts(ew_enc(slot_op(op), var@, a.typ@, a.pv(), b.typ@, b.pv())),
            seconds(ew_enc(slot_op(op), var@, a.typ@, a.pv(), b.typ@, b.pv())),
        ),
{
    let sop = match op {
        BinOp::Add => SlotOp::Add,
        _ => SlotOp::Sub,
    };
    elementwise_op(ideal, var, a, b, r_typ, sop);
}

/// Multiplication of `a` and `b` into `target`, element by element over
/// vectors, with polynomial products at the non-vector level; see
/// [`elementwise_op`] and [`mul_leaf`].
pub fn mul_op_inner(ideal: &mut Ideal, target: &Var, a: &PolySource, b: &PolySource, r_typ: &ATyp)
    requires
        old(ideal).wf(),
        target.typ@ == r_typ@,
        ew_ok(SlotOp::Mul, target@, a.typ@, a.pv(), b.typ@, b.pv()),
    ensures
        encodes(
            *old(ideal),
            *final(ideal),
            firsts(ew_enc(SlotOp::Mul, target@, a.typ@, a.pv(), b.typ@, b.pv())),
            seconds(ew_enc(SlotOp::Mul, target@, a.typ@, a.pv(), b.typ@, b.pv())),
        ),
{
    elementwise_op(ideal, target, a, b, r_typ, SlotOp::Mul);
}


/// Values of a pairing of two non-vector operands: both lifted to the
/// result shape, multiplied slot by slot.
pub open spec fn pair_leaf_vals(ta: TypV, pa: Seq<PolyV>, tb: TypV, pb: Seq<PolyV>, tr: TypV) -> Seq<spec_fn(Env) -> int> {
    Seq::new(plen(tr), |j: int| (|env: Env| lift_val(ta, tr, pa, j, env) * lift_val(tb, tr, pb, j, env)))
}

/// Non-vector operands a pairing into target `t` handles.
pub open spec fn pair_leaf_ok(t: VarV, ta: TypV, pa: Seq<PolyV>, tb: TypV, pb: Seq<PolyV>) -> bool {
    let tr = t.typ;
    &&& slots_ok(tr)
    &&& pa.len() == plen(ta)
    &&& pb.len() == plen(tb)
    &&& liftable(ta, tr)
    &&& liftable(tb, tr)
    &&& plen(tr) <= usize::MAX
    &&& slot_list(t).len() == plen(tr)
}

proof fn lemma_mul_congr(x: int, x2: int, y: int, y2: int, m: int)
    requires
        m > 0,
        x % m == x2 % m,
        y % m == y2 % m,
    ensures
        (x * y) % m == (x2 * y2) % m,
{
    vstd::arithmetic::div_mod::lemma_mul_mod_noop(x, y, m);
    vstd::arithmetic::div_mod::lemma_mul_mod_noop(x2, y2, m);
}

/// Bilinear pairing of two non-vector operands into `var`: both are lifted
/// to the result shape and the slots multiplied pairwise.
pub fn pair_leaf(ideal: &mut Ideal, var: &Var, a: &PolySource, b: &PolySource, r_typ: &ATyp)
    requires
        old(ideal).wf(),
        var.typ@ == r_typ@,
        pair_leaf_ok(var@, a.typ@, a.pv(), b.typ@, b.pv()),
    ensures
        encodes(*old(ideal), *final(ideal), slot_list(var@), pair_leaf_vals(a.typ@, a.pv(), b.typ@, b.pv(), r_typ@)),
{
    let ghost (ta, pa, tb, pb, tr) = (a.typ@, a.pv(), b.typ@, b.pv(), r_typ@);
    let ghost want = pair_leaf_vals(ta, pa, tb, pb, tr);
    let ghost md = modulus() as int;
    let a_l = a.lift_to(&var.typ);
    let b_l = b.lift_to(&var.typ);
    let mut es: Vec<Polynomial> = Vec::new();
    let mut j: usize = 0;
    while j < a_l.polys.len()
        invariant
            j <= a_l.polys@.len(),
            a_l.polys@.len() == b_l.polys@.len(),
            es@.len() == j,
            forall|q: int| 0 <= q < j ==> crate::polyv::is_prod(#[trigger] es@[q]@, a_l.polys@[q]@, b_l.polys@[q]@),
        decreases a_l.polys@.len() - j,
    {
        es.push(a_l.polys[j].mul(&b_l.polys[j]));
        j = j + 1;
    }
    let ghost got = poly_vals(pviews(es@));
    link_to_polys(ideal, var, es);
    proof {
        lemma_lift_vals(ta, tr, pa, a_l.pv());
        lemma_lift_vals(tb, tr, pb, b_l.pv());
        assert forall|t: int, env: Env| 0 <= t < want.len() implies #[trigger] (got[t](env) % md) == want[t](env) % md by {
            let x = eval(a_l.pv()[t], env) as int;
            let y = eval(b_l.pv()[t], env) as int;
            assert(eval(es@[t]@, env) == (x * y) % md);
            lemma_mul_congr(x, lift_val(ta, tr, pa, t, env), y, lift_val(tb, tr, pb, t, env), md);
            vstd::arithmetic::div_mod::lemma_mod_twice(lift_val(ta, tr, pa, t, env), md);
            vstd::arithmetic::div_mod::lemma_mod_twice(lift_val(tb, tr, pb, t, env), md);
            vstd::arithmetic::div_mod::lemma_mod_twice(x * y, md);
        }
        lemma_encodes_vals(*old(ideal), *ideal, slot_list(var@), got, want);
    }
}

/// Bilinear pairing of `a` and `b` into `var`, element by element over
/// vectors; see [`elementwise_op`] and [`pair_leaf`].
pub fn pair_op_inner(ideal: &mut Ideal, var: &Var, a: &PolySource, b: &PolySource)
    requires
        old(ideal).wf(),
        ew_ok(SlotOp::Pair, var@, a.typ@, a.pv(), b.typ@, b.pv()),
    ensures
        encodes(
            *old(ideal),
            *final(ideal),
            firsts(ew_enc(SlotOp::Pair, var@, a.typ@, a.pv(), b.typ@, b.pv())),
            seconds(ew_enc(SlotOp::Pair, var@, a.typ@, a.pv(), b.typ@, b.pv())),
        ),
{
    elementwise_op(ideal, var, a, b, &var.typ, SlotOp::Pair);
}


/// Element `i < n` of a vector of `n` elements of shape `e` has `plen(e)`
/// slots, all within the vector's.
pub proof fn lemma_elem_len_pub(pa: Seq<PolyV>, e: TypV, n: nat, i: nat)
    requires
        pa.len() == n * plen(e),
        i < n,
    ensures
        (i + 1) * plen(e) <= pa.len(),
        slice(pa, e, i).len() == plen(e),
{
    lemma_elem_len(pa, e, n, i);
}

} // verus!

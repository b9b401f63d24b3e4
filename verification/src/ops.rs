//! Encoder entry points taking operands: bind the result variable of an
//! operation to polynomials in its operands.
use vstd::prelude::*;

use crate::arith::{add_sub_op_inner, ew_enc, ew_ok, firsts, mul_op_inner, pair_op_inner, seconds, slot_op, BinOp, SlotOp};
use crate::encode::{encodes, lemma_encodes_compose, lemma_encodes_nothing, link_to_polys, link_to_witness, poly_vals, var_polys};
use crate::field::{modulus, Fe};
use crate::ideal::Ideal;
use crate::poly_source::{
    lemma_lift_vals, lift_val, liftable, lits, op_typ, operand_ok, operand_polys, pviews, Operand, PolySource,
};
use crate::poly::Polynomial;
use crate::polyv::{eval, Env, PolyV};
use crate::typ::{plen, ABase, ATyp, TypV};
use crate::value::{const_readable, value_consts, Value};
use crate::var::{all_below, child, index_ok, lemma_below_concat, lemma_child_slots_below, lemma_slots_ok_child, slot_list, slot_typ, slots_ok, Ref, Var, VarV};

verus! {

broadcast use {crate::field::lemma_val_lt, crate::polyv::lemma_eval_lt};

/// `var` is the whole value of node `r` with shape `t`.
pub open spec fn is_self_ref(var: VarV, r: Ref, t: TypV) -> bool {
    var.reference == r && var.index.len() == 0 && var.typ == t
}

/// Values of the slots of node `r`'s value, shape `t`, lifted to `tr`.
pub open spec fn ref_vals(ideal: Ideal, r: Ref, t: TypV, tr: TypV) -> Seq<spec_fn(Env) -> int> {
    Seq::new(plen(tr), |j: int| (|env: Env| lift_val(t, tr, operand_polys(Operand::Ref(r, ATyp::Base(crate::typ::ABase::Unit)), ideal), j, env)))
}

/// What binding `var` to the value of node `r` needs.
pub open spec fn ref_op_ok(ideal: Ideal, var: VarV, r: Ref, t: TypV) -> bool {
    &&& ideal.names().contains_key(r)
    &&& slots_ok(ideal.names()[r].typ)
    &&& slot_list(ideal.names()[r]).len() == plen(t)
    &&& liftable(t, var.typ)
    &&& plen(var.typ) <= usize::MAX
    &&& slots_ok(var.typ)
    &&& slot_list(var).len() == plen(var.typ)
}

/// Bind `var` to the value of node `r` (shape `typ`), lifted to `var`'s
/// shape; nothing to do when `var` is that node's whole value already.
pub fn ref_op(ideal: &mut Ideal, var: &Var, r: Ref, typ: &ATyp)
    requires
        old(ideal).wf(),
        is_self_ref(var@, r, typ@) || ref_op_ok(*old(ideal), var@, r, typ@),
    ensures
        is_self_ref(var@, r, typ@) ==> *final(ideal) == *old(ideal),
        !is_self_ref(var@, r, typ@) ==> encodes(*old(ideal), *final(ideal), slot_list(var@), ref_vals(*old(ideal), r, typ@, var.typ@)),
{
    if var.reference.node() == r.node() && var.index.len() == 0 && var.typ.same(typ) {
        return;
    }
    assert(!is_self_ref(var@, r, typ@)) by {
        if is_self_ref(var@, r, typ@) {
            assert(var.reference.0 == r.0);
        }
    }
    let ghost before = *ideal;
    let op = Operand::Ref(r, typ.clone());
    let src = PolySource::from_ref_vars(ideal, &op);
    assert(src.pv().len() == src.polys@.len());
    let lifted = src.lift_to(&var.typ);
    let ghost got = poly_vals(lifted.pv());
    let ghost want = ref_vals(before, r, typ@, var.typ@);
    link_to_polys(ideal, var, lifted.polys);
    proof {
        let md = modulus() as int;
        lemma_lift_vals(typ@, var.typ@, src.pv(), lifted.pv());
        assert(src.pv() == operand_polys(Operand::Ref(r, ATyp::Base(crate::typ::ABase::Unit)), before));
        assert forall|t: int, env: Env| 0 <= t < want.len() implies #[trigger] (got[t](env) % md) == want[t](env) % md by {
            vstd::arithmetic::div_mod::lemma_mod_twice(lift_val(typ@, var.typ@, src.pv(), t, env), md);
        }
        crate::arith::lemma_encodes_vals(before, *ideal, slot_list(var@), got, want);
    }
}

/// Bind the slots of `var` to the constants of the literal `v`.
pub fn value_op(ideal: &mut Ideal, var: &Var, v: &Value)
    requires
        old(ideal).wf(),
        const_readable(*v),
        slots_ok(var.typ@),
        slot_list(var@).len() == value_consts(*v).len(),
    ensures
        encodes(*old(ideal), *final(ideal), slot_list(var@), poly_vals(lits(value_consts(*v)))),
{
    let polys = PolySource::to_poly_value(v);
    assert(pviews(polys@).len() == polys@.len());
    link_to_polys(ideal, var, polys);
}

/// Pin the argument `arg` to a known value: its slots are bound to the
/// value's constants.
pub fn constrain_partial_value(ideal: &mut Ideal, arg: &Var, value: &Value)
    requires
        old(ideal).wf(),
        const_readable(*value),
        slots_ok(arg.typ@),
        slot_list(arg@).len() == value_consts(*value).len(),
    ensures
        encodes(*old(ideal), *final(ideal), slot_list(arg@), poly_vals(lits(value_consts(*value)))),
{
    value_op(ideal, arg, value);
}

/// What an element-wise operation `op` on operands `a`, `b` into `var`
/// needs.
pub open spec fn binop_ok(op: SlotOp, ideal: Ideal, var: VarV, a: Operand, b: Operand) -> bool {
    &&& operand_ok(a, ideal)
    &&& operand_ok(b, ideal)
    &&& ew_ok(op, var, op_typ(a), operand_polys(a, ideal), op_typ(b), operand_polys(b, ideal))
}

/// The bindings of an element-wise operation `op` on operands.
pub open spec fn binop_enc(op: SlotOp, ideal: Ideal, var: VarV, a: Operand, b: Operand) -> Seq<(VarV, spec_fn(Env) -> int)> {
    ew_enc(op, var, op_typ(a), operand_polys(a, ideal), op_typ(b), operand_polys(b, ideal))
}

fn add_sub_op(ideal: &mut Ideal, var: &Var, a: &Operand, b: &Operand, r_typ: &ATyp, op: BinOp)
    requires
        old(ideal).wf(),
        op is Add || op is Sub,
        var.typ@ == r_typ@,
        binop_ok(slot_op(op), *old(ideal), var@, *a, *b),
    ensures
        encodes(*old(ideal), *final(ideal), firsts(binop_enc(slot_op(op), *old(ideal), var@, *a, *b)), seconds(binop_enc(slot_op(op), *old(ideal), var@, *a, *b))),
{
    let a_src = PolySource::from_ref_vars(ideal, a);
    let b_src = PolySource::from_ref_vars(ideal, b);
    add_sub_op_inner(ideal, var, &a_src, &b_src, r_typ, op);
}

/// Slot-wise addition with type-aware lifting and scalar injection.
pub fn add_op(ideal: &mut Ideal, var: &Var, a: &Operand, b: &Operand, r_typ: &ATyp)
    requires
        old(ideal).wf(),
        var.typ@ == r_typ@,
        binop_ok(SlotOp::Add, *old(ideal), var@, *a, *b),
    ensures
        encodes(*old(ideal), *final(ideal), firsts(binop_enc(SlotOp::Add, *old(ideal), var@, *a, *b)), seconds(binop_enc(SlotOp::Add, *old(ideal), var@, *a, *b))),
{
    add_sub_op(ideal, var, a, b, r_typ, BinOp::Add);
}

/// Slot-wise subtraction with type-aware lifting and scalar injection.
pub fn sub_op(ideal: &mut Ideal, var: &Var, a: &Operand, b: &Operand, r_typ: &ATyp)
    requires
        old(ideal).wf(),
        var.typ@ == r_typ@,
        binop_ok(SlotOp::Sub, *old(ideal), var@, *a, *b),
    ensures
        encodes(*old(ideal), *final(ideal), firsts(binop_enc(SlotOp::Sub, *old(ideal), var@, *a, *b)), seconds(binop_enc(SlotOp::Sub, *old(ideal), var@, *a, *b))),
{
    add_sub_op(ideal, var, a, b, r_typ, BinOp::Sub);
}

/// Multiplication of two operands into `target`.
pub fn mul_op(ideal: &mut Ideal, target: &Var, a: &Operand, b: &Operand, r_typ: &ATyp)
    requires
        old(ideal).wf(),
        target.typ@ == r_typ@,
        binop_ok(SlotOp::Mul, *old(ideal), target@, *a, *b),
    ensures
        encodes(*old(ideal), *final(ideal), firsts(binop_enc(SlotOp::Mul, *old(ideal), target@, *a, *b)), seconds(binop_enc(SlotOp::Mul, *old(ideal), target@, *a, *b))),
{
    let a_src = PolySource::from_ref_vars(ideal, a);
    let b_src = PolySource::from_ref_vars(ideal, b);
    mul_op_inner(ideal, target, &a_src, &b_src, r_typ);
}

/// Bilinear pairing of two operands into `var`.
pub fn pair_op(ideal: &mut Ideal, var: &Var, a: &Operand, b: &Operand)
    requires
        old(ideal).wf(),
        binop_ok(SlotOp::Pair, *old(ideal), var@, *a, *b),
    ensures
        encodes(*old(ideal), *final(ideal), firsts(binop_enc(SlotOp::Pair, *old(ideal), var@, *a, *b)), seconds(binop_enc(SlotOp::Pair, *old(ideal), var@, *a, *b))),
{
    let a_src = PolySource::from_ref_vars(ideal, a);
    let b_src = PolySource::from_ref_vars(ideal, b);
    pair_op_inner(ideal, var, &a_src, &b_src);
}


/// Assert each slot of the boolean operand `exp` equal to one: the
/// generator `p - 1` is appended for each of its slot polynomials `p`.
pub fn check_op(ideal: &mut Ideal, exp: &Operand)
    requires
        old(ideal).wf(),
        operand_ok(*exp, *old(ideal)),
        op_typ(*exp) == TypV::Base(ABase::Bool),
    ensures
        final(ideal).pl == old(ideal).pl,
        final(ideal).vars == old(ideal).vars,
        final(ideal).var_order == old(ideal).var_order,
        final(ideal).gens().len() == old(ideal).gens().len() + operand_polys(*exp, *old(ideal)).len(),
        forall|i: int| 0 <= i < old(ideal).gens().len() ==> #[trigger] final(ideal).gens()[i] == old(ideal).gens()[i],
        forall|j: int, env: Env| 0 <= j < operand_polys(*exp, *old(ideal)).len() ==> #[trigger] eval(final(ideal).gens()[old(ideal).gens().len() + j], env)
            == ((eval(operand_polys(*exp, *old(ideal))[j], env) + modulus() - 1) as nat) % modulus(),
{
    let ghost before = *ideal;
    let ghost ps = operand_polys(*exp, before);
    let polys = PolySource::ref_vars(exp, ideal);
    let one = Polynomial::lit(&Fe::one());
    let mut j: usize = 0;
    while j < polys.len()
        invariant
            j <= polys@.len(),
            pviews(polys@) == ps,
            one@ == crate::polyv::lit(1),
            ideal.pl == before.pl,
            ideal.vars == before.vars,
            ideal.var_order == before.var_order,
            ideal.gens().len() == before.gens().len() + j,
            forall|i: int| 0 <= i < before.gens().len() ==> #[trigger] ideal.gens()[i] == before.gens()[i],
            forall|q: int, env: Env| 0 <= q < j ==> #[trigger] eval(ideal.gens()[before.gens().len() + q], env)
                == ((eval(ps[q], env) + modulus() - 1) as nat) % modulus(),
        decreases polys@.len() - j,
    {
        let g = polys[j].sub(&one);
        let ghost prev = ideal.generating_set@;
        ideal.generating_set.push(g);
        proof {
            assert(ideal.gens() =~= pviews(prev).push(g@));
            assert forall|env: Env| #[trigger] eval(g@, env) == ((eval(ps[j as int], env) + modulus() - 1) as nat) % modulus() by {
                assert(eval(one@, env) == 1) by {
                    vstd::arithmetic::div_mod::lemma_small_mod(1, modulus());
                }
                assert(pviews(polys@)[j as int] == polys@[j as int]@);
            }
        }
        j = j + 1;
    }
}

/// The array read by a RAM access: the variable of the node `a` refers to.
pub open spec fn ram_array(ideal: Ideal, a: Operand) -> VarV {
    ideal.names()[a->Ref_0]
}

/// Logical element `i` of `v`.
pub open spec fn elem(v: VarV, i: nat) -> VarV {
    child(v, i, slot_typ(v.typ, i)->0)
}

/// Slots of elements `0..k` of `v`.
pub open spec fn elems_slots(v: VarV, k: nat) -> Seq<VarV>
    decreases k,
{
    if k == 0 {
        Seq::empty()
    } else {
        elems_slots(v, (k - 1) as nat) + slot_list(elem(v, (k - 1) as nat))
    }
}

/// Variables of the slots of the array elements `idx[0..k]`, in order.
pub open spec fn gathered_vals(arr: VarV, idx: Seq<usize>, k: nat) -> Seq<spec_fn(Env) -> int>
    decreases k,
{
    if k == 0 {
        Seq::empty()
    } else {
        gathered_vals(arr, idx, (k - 1) as nat) + poly_vals(var_polys(slot_list(elem(arr, idx[k - 1] as nat))))
    }
}

/// What a RAM read of `a` at the literal index or indices `b` into `var`
/// needs: `a` names an array node, each index is within its bounds, and the
/// read elements' slots fit the destination slots.
pub open spec fn ram_ok(ideal: Ideal, var: VarV, a: Operand, b: Operand) -> bool {
    let arr = ram_array(ideal, a);
    &&& a is Ref
    &&& ideal.names().contains_key(a->Ref_0)
    &&& index_ok(arr.typ)
    &&& slots_ok(arr.typ)
    &&& slots_ok(var.typ)
    &&& match b {
        Operand::Value(Value::Index(i), _) => {
            &&& slot_typ(arr.typ, i as nat) is Some
            &&& slot_list(var).len() == slot_list(elem(arr, i as nat)).len()
        },
        Operand::Value(Value::VecIndex(vs), _) => {
            &&& index_ok(var.typ)
            &&& forall|j: int| 0 <= j < vs@.len() ==> #[trigger] slot_typ(arr.typ, vs@[j] as nat) is Some
            &&& forall|j: int| 0 <= j < vs@.len() ==> #[trigger] slot_typ(var.typ, j as nat) is Some
            &&& forall|j: int| 0 <= j < vs@.len() ==> #[trigger] slot_list(elem(var, j as nat)).len()
                == slot_list(elem(arr, vs@[j] as nat)).len()
        },
        _ => false,
    }
}

/// A RAM read at literal indices: with one index `i`, the slots of `var`
/// are bound to the slot variables of element `i` of the array `a`; with a
/// list of indices, element `j` of `var` to those of element `vs[j]`.
pub fn ram_op(ideal: &mut Ideal, var: &Var, a: &Operand, b: &Operand)
    requires
        old(ideal).wf(),
        ram_ok(*old(ideal), var@, *a, *b),
    ensures
        b matches Operand::Value(Value::Index(i), _) ==> encodes(
            *old(ideal),
            *final(ideal),
            slot_list(var@),
            poly_vals(var_polys(slot_list(elem(ram_array(*old(ideal), *a), i as nat)))),
        ),
        b matches Operand::Value(Value::VecIndex(vs), _) ==> encodes(
            *old(ideal),
            *final(ideal),
            elems_slots(var@, vs@.len()),
            gathered_vals(ram_array(*old(ideal), *a), vs@, vs@.len()),
        ),
{
    let ghost start = *ideal;
    let r = match a {
        Operand::Ref(r, _) => *r,
        _ => {
            return;
        },
    };
    let array_var = ideal.find_ref(r);
    let ghost arr = array_var@;
    match b {
        Operand::Value(Value::Index(i), _) => {
            let elem_var = array_var.with_index(*i).unwrap();
            proof {
                lemma_slots_ok_child(arr.typ, *i as nat);
            }
            link_to_witness(ideal, var, &elem_var);
        },
        Operand::Value(Value::VecIndex(vs), _) => {
            proof {
                lemma_encodes_nothing(start);
            }
            let mut j: usize = 0;
            while j < vs.len()
                invariant
                    j <= vs@.len(),
                    ideal.wf(),
                    ideal.names() == start.names(),
                    arr == array_var@,
                    arr == ram_array(start, *a),
                    ram_ok(start, var@, *a, *b),
                    *b == Operand::Value(Value::VecIndex(*vs), b->Value_1),
                    encodes(start, *ideal, elems_slots(var@, j as nat), gathered_vals(arr, vs@, j as nat)),
                    all_below(elems_slots(var@, j as nat), var@, 0, j as nat),
                decreases vs@.len() - j,
            {
                let ghost mid = *ideal;
                let ghost jj: int = j as int;
                assert(slot_typ(arr.typ, vs@[jj] as nat) is Some);
                assert(slot_typ(var@.typ, jj as nat) is Some);
                assert(slot_list(elem(var@, jj as nat)).len() == slot_list(elem(arr, vs@[jj] as nat)).len());
                proof {
                    lemma_slots_ok_child(arr.typ, vs@[j as int] as nat);
                    lemma_slots_ok_child(var@.typ, j as nat);
                }
                let src_var = array_var.with_index(vs[j]).unwrap();
                let dst_var = var.with_index(j).unwrap();
                assert(slot_list(elem(var@, j as nat)).len() == slot_list(elem(arr, vs@[j as int] as nat)).len());
                link_to_witness(ideal, &dst_var, &src_var);
                proof {
                    lemma_child_slots_below(var@, j as nat, slot_typ(var@.typ, j as nat)->0);
                    lemma_below_concat(elems_slots(var@, j as nat), slot_list(elem(var@, j as nat)), var@, 0, j as nat, j as nat + 1);
                    lemma_encodes_compose(
                        start,
                        mid,
                        *ideal,
                        elems_slots(var@, j as nat),
                        gathered_vals(arr, vs@, j as nat),
                        slot_list(elem(var@, j as nat)),
                        poly_vals(var_polys(slot_list(elem(arr, vs@[j as int] as nat)))),
                    );
                }
                j = j + 1;
            }
        },
        _ => {},
    }
}

} // verus!

//! Concatenation: the elements of two operands laid out one after the
//! other in a vector, each lifted to the result's element shape.
use vstd::prelude::*;

use crate::arith::slice;
use crate::encode::{encodes, lemma_encodes_compose, lemma_encodes_nothing, link_to_polys, poly_vals};
use crate::field::modulus;
use crate::ideal::Ideal;
use crate::poly_source::{lemma_lift_vals, lift_val, liftable, PolySource};
use crate::polyv::{Env, PolyV};
use crate::typ::{plen, ATyp, TypV};
use crate::var::{all_below, child, lemma_below_concat, lemma_child_slots_below, slot_list, slots_ok, Var, VarV};

verus! {

broadcast use {crate::field::lemma_val_lt, crate::polyv::lemma_eval_lt};

/// Values of the slots `ps` of shape `s` lifted to shape `t`.
pub open spec fn lift_vals(s: TypV, t: TypV, ps: Seq<PolyV>) -> Seq<spec_fn(Env) -> int> {
    Seq::new(plen(t), |j: int| (|env: Env| lift_val(s, t, ps, j, env)))
}

/// What binding `target` to `(s, ps)` lifted to shape `t` needs.
pub open spec fn alias_ok(target: VarV, s: TypV, ps: Seq<PolyV>, t: TypV) -> bool {
    &&& ps.len() == plen(s)
    &&& liftable(s, t)
    &&& plen(t) <= usize::MAX
    &&& slots_ok(target.typ)
    &&& slot_list(target).len() == plen(t)
}

/// Bind the slots of `target` to `source`'s slots lifted to `target_typ`.
pub fn bind_lifted_alias(target: &Var, source: &PolySource, target_typ: &ATyp, ideal: &mut Ideal)
    requires
        old(ideal).wf(),
        alias_ok(target@, source.typ@, source.pv(), target_typ@),
    ensures
        encodes(*old(ideal), *final(ideal), slot_list(target@), lift_vals(source.typ@, target_typ@, source.pv())),
{
    let ghost before = *ideal;
    let lifted = source.lift_to(target_typ);
    let ghost got = poly_vals(lifted.pv());
    let ghost want = lift_vals(source.typ@, target_typ@, source.pv());
    link_to_polys(ideal, target, lifted.polys);
    proof {
        let md = modulus() as int;
        lemma_lift_vals(source.typ@, target_typ@, source.pv(), lifted.pv());
        assert forall|t: int, env: Env| 0 <= t < want.len() implies #[trigger] (got[t](env) % md) == want[t](env) % md by {
            vstd::arithmetic::div_mod::lemma_mod_twice(lift_val(source.typ@, target_typ@, source.pv(), t, env), md);
        }
        crate::arith::lemma_encodes_vals(before, *ideal, slot_list(target@), got, want);
    }
}

/// Slots of elements `off..off + n` of the vector var `t`.
pub open spec fn alias_slots(t: VarV, off: nat, n: nat) -> Seq<VarV>
    decreases n,
{
    if n == 0 {
        Seq::empty()
    } else {
        alias_slots(t, off, (n - 1) as nat) + slot_list(child(t, (off + n - 1) as nat, *t.typ->Vec_0))
    }
}

/// Values of the first `n` elements (shape `se`) of the slots `ps`, each
/// lifted to shape `e`.
pub open spec fn alias_vals(se: TypV, ps: Seq<PolyV>, e: TypV, n: nat) -> Seq<spec_fn(Env) -> int>
    decreases n,
{
    if n == 0 {
        Seq::empty()
    } else {
        alias_vals(se, ps, e, (n - 1) as nat) + lift_vals(se, e, slice(ps, se, (n - 1) as nat))
    }
}

/// What binding elements `off..off + n` of `target` to the first `n`
/// elements of the vector `(s, ps)`, lifted to `elem`, needs.
pub open spec fn vec_alias_ok(target: VarV, off: nat, s: TypV, ps: Seq<PolyV>, n: nat, elem: TypV) -> bool {
    &&& target.typ matches TypV::Vec(te, nt) && *te == elem && off + n <= nt
    &&& s matches TypV::Vec(se, ns) && n <= ns
    &&& ps.len() == plen(s)
    &&& slots_ok(target.typ)
    &&& liftable(*s->Vec_0, elem)
    &&& plen(elem) <= usize::MAX
    &&& forall|i: nat| i < n ==> #[trigger] slot_list(child(target, (off + i) as nat, elem)).len() == plen(elem)
}

proof fn lemma_elem_fits(ps: Seq<PolyV>, e: TypV, n: nat, i: nat)
    requires
        ps.len() == n * plen(e),
        i < n,
    ensures
        (i + 1) * plen(e) <= ps.len(),
        slice(ps, e, i).len() == plen(e),
{
    crate::arith::lemma_elem_len_pub(ps, e, n, i);
}

/// Bind elements `target_offset..target_offset + source_len` of `target`
/// to the first `source_len` elements of `source`, each lifted to
/// `elem_typ`.
pub fn bind_vec_aliases(target: &Var, target_offset: usize, source: &PolySource, source_len: usize, elem_typ: &ATyp, ideal: &mut Ideal)
    requires
        old(ideal).wf(),
        vec_alias_ok(target@, target_offset as nat, source.typ@, source.pv(), source_len as nat, elem_typ@),
    ensures
        encodes(
            *old(ideal),
            *final(ideal),
            alias_slots(target@, target_offset as nat, source_len as nat),
            alias_vals(*source.typ@->Vec_0, source.pv(), elem_typ@, source_len as nat),
        ),
        all_below(alias_slots(target@, target_offset as nat, source_len as nat), target@, target_offset as nat, (target_offset + source_len) as nat),
{
    let ghost start = *ideal;
    let ghost se = *source.typ@->Vec_0;
    let ghost ns = source.typ@->Vec_1;
    let ghost off = target_offset as nat;
    proof {
        lemma_encodes_nothing(start);
    }
    let mut i: usize = 0;
    while i < source_len
        invariant
            i <= source_len,
            ideal.wf(),
            vec_alias_ok(target@, off, source.typ@, source.pv(), source_len as nat, elem_typ@),
            off == target_offset as nat,
            se == *source.typ@->Vec_0,
            ns == source.typ@->Vec_1,
            encodes(start, *ideal, alias_slots(target@, off, i as nat), alias_vals(se, source.pv(), elem_typ@, i as nat)),
            all_below(alias_slots(target@, off, i as nat), target@, off, off + i as nat),
        decreases source_len - i,
    {
        let ghost mid = *ideal;
        proof {
            lemma_elem_fits(source.pv(), se, ns, i as nat);
        }
        let target_elem = target.with_index(target_offset + i).unwrap();
        let source_elem = source.at_index(i).unwrap();
        bind_lifted_alias(&target_elem, &source_elem, elem_typ, ideal);
        proof {
            let k: nat = off + i as nat;
            let c = child(target@, k, elem_typ@);
            lemma_child_slots_below(target@, k, elem_typ@);
            lemma_below_concat(alias_slots(target@, off, i as nat), slot_list(c), target@, off, k, k + 1);
            assert(source_elem.pv() == slice(source.pv(), se, i as nat));
            lemma_encodes_compose(
                start,
                mid,
                *ideal,
                alias_slots(target@, off, i as nat),
                alias_vals(se, source.pv(), elem_typ@, i as nat),
                slot_list(c),
                lift_vals(se, elem_typ@, slice(source.pv(), se, i as nat)),
            );
        }
        i = i + 1;
    }
}

/// What concatenating `a` and `b` into `var` needs: a vector result whose
/// elements hold the elements of each vector operand, or a non-vector
/// operand as one element, each lifted to the result's element shape.
pub open spec fn concat_ok(var: VarV, a: TypV, pa: Seq<PolyV>, b: TypV, pb: Seq<PolyV>) -> bool {
    &&& var.typ is Vec
    &&& ({
        let e = *var.typ->Vec_0;
        match (a, b) {
            (TypV::Vec(_, na), TypV::Vec(_, nb)) => vec_alias_ok(var, 0, a, pa, na, e) && vec_alias_ok(var, na, b, pb, nb, e),
            (TypV::Vec(_, na), _) => vec_alias_ok(var, 0, a, pa, na, e) && na < var.typ->Vec_1 && alias_ok(child(var, na, e), b, pb, e),
            (_, TypV::Vec(_, nb)) => 0 < var.typ->Vec_1 && alias_ok(child(var, 0, e), a, pa, e) && vec_alias_ok(var, 1, b, pb, nb, e),
            _ => false,
        }
    })
}

/// The slots `concat_op` binds, in order.
pub open spec fn concat_slots(var: VarV, a: TypV, b: TypV) -> Seq<VarV> {
    let e = *var.typ->Vec_0;
    match (a, b) {
        (TypV::Vec(_, na), TypV::Vec(_, nb)) => alias_slots(var, 0, na) + alias_slots(var, na, nb),
        (TypV::Vec(_, na), _) => alias_slots(var, 0, na) + slot_list(child(var, na, e)),
        _ => slot_list(child(var, 0, e)) + alias_slots(var, 1, b->Vec_1),
    }
}

/// The values `concat_op` binds them to.
pub open spec fn concat_vals(var: VarV, a: TypV, pa: Seq<PolyV>, b: TypV, pb: Seq<PolyV>) -> Seq<spec_fn(Env) -> int> {
    let e = *var.typ->Vec_0;
    match (a, b) {
        (TypV::Vec(ea, na), TypV::Vec(eb, nb)) => alias_vals(*ea, pa, e, na) + alias_vals(*eb, pb, e, nb),
        (TypV::Vec(ea, na), _) => alias_vals(*ea, pa, e, na) + lift_vals(b, e, pb),
        _ => lift_vals(a, e, pa) + alias_vals(*b->Vec_0, pb, e, b->Vec_1),
    }
}

/// Concatenate `a` and `b` into the vector `var`: the elements of a vector
/// operand, or a non-vector operand as a single element, in order, each
/// lifted to `var`'s element shape.
pub fn concat_op(ideal: &mut Ideal, var: &Var, a: &PolySource, b: &PolySource)
    requires
        old(ideal).wf(),
        concat_ok(var@, a.typ@, a.pv(), b.typ@, b.pv()),
    ensures
        encodes(*old(ideal), *final(ideal), concat_slots(var@, a.typ@, b.typ@), concat_vals(var@, a.typ@, a.pv(), b.typ@, b.pv())),
{
    let ghost start = *ideal;
    let r_elem = match &var.typ {
        ATyp::Vec(e, _) => e,
        _ => {
            return;
        },
    };
    let ghost e = r_elem@;
    assert(e == *var.typ@->Vec_0);
    match (&a.typ, &b.typ) {
        (ATyp::Vec(_, na), ATyp::Vec(_, nb)) => {
            bind_vec_aliases(var, 0, a, *na, r_elem, ideal);
            let ghost mid = *ideal;
            bind_vec_aliases(var, *na, b, *nb, r_elem, ideal);
            proof {
                lemma_below_concat(alias_slots(var@, 0, *na as nat), alias_slots(var@, *na as nat, *nb as nat), var@, 0, *na as nat, (*na + *nb) as nat);
                lemma_encodes_compose(start, mid, *ideal, alias_slots(var@, 0, *na as nat), alias_vals(*a.typ@->Vec_0, a.pv(), e, *na as nat),
                    alias_slots(var@, *na as nat, *nb as nat), alias_vals(*b.typ@->Vec_0, b.pv(), e, *nb as nat));
            }
        },
        (ATyp::Vec(_, na), _) => {
            bind_vec_aliases(var, 0, a, *na, r_elem, ideal);
            let ghost mid = *ideal;
            let target_elem = var.with_index(*na).unwrap();
            bind_lifted_alias(&target_elem, b, r_elem, ideal);
            proof {
                lemma_child_slots_below(var@, *na as nat, e);
                lemma_below_concat(alias_slots(var@, 0, *na as nat), slot_list(child(var@, *na as nat, e)), var@, 0, *na as nat, *na as nat + 1);
                lemma_encodes_compose(start, mid, *ideal, alias_slots(var@, 0, *na as nat), alias_vals(*a.typ@->Vec_0, a.pv(), e, *na as nat),
                    slot_list(child(var@, *na as nat, e)), lift_vals(b.typ@, e, b.pv()));
            }
        },
        (_, ATyp::Vec(_, nb)) => {
            let target_elem = var.with_index(0).unwrap();
            bind_lifted_alias(&target_elem, a, r_elem, ideal);
            let ghost mid = *ideal;
            bind_vec_aliases(var, 1, b, *nb, r_elem, ideal);
            proof {
                lemma_child_slots_below(var@, 0, e);
                lemma_below_concat(slot_list(child(var@, 0, e)), alias_slots(var@, 1, *nb as nat), var@, 0, 1, (1 + *nb) as nat);
                lemma_encodes_compose(start, mid, *ideal, slot_list(child(var@, 0, e)), lift_vals(a.typ@, e, a.pv()),
                    alias_slots(var@, 1, *nb as nat), alias_vals(*b.typ@->Vec_0, b.pv(), e, *nb as nat));
            }
        },
        _ => {},
    }
}

} // verus!

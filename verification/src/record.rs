//! Records: laying field values out in a record's slots, and projecting a
//! field back out of them.
use vstd::prelude::*;

use crate::encode::{encodes, lemma_encodes_compose, lemma_encodes_nothing, link_to_polys, poly_vals};
use crate::ideal::Ideal;
use crate::poly::Polynomial;
use crate::poly_source::{operand_ok, operand_polys, pviews, Operand, PolySource};
use crate::polyv::{Env, PolyV};
use crate::typ::{lemma_plen_prefix_full, lemma_plen_prefix_mono, lemma_plen_prefix_step, plen, plen_prefix, ATyp, Field, TypV};
use crate::var::{all_below, child, lemma_below_concat, lemma_child_slots_below, slot_list, slot_typ, slots_ok, index_ok, Var, VarV};

verus! {

/// Field `i` is the first field named `name`.
pub open spec fn is_first_field(fs: Seq<Field>, name: Seq<char>, i: int) -> bool {
    &&& 0 <= i < fs.len()
    &&& fs[i].name@ == name
    &&& forall|j: int| 0 <= j < i ==> fs[j].name@ != name
}

/// Some field is named `name`.
pub open spec fn has_field(fs: Seq<Field>, name: Seq<char>) -> bool {
    exists|i: int| 0 <= i < fs.len() && fs[i].name@ == name
}

/// Position of the first field named `name`.
pub open spec fn field_index(fs: Seq<Field>, name: Seq<char>) -> int {
    choose|i: int| is_first_field(fs, name, i)
}

/// Slot offset of the first field named `name`: the slots of the fields
/// before it.
pub open spec fn field_offset(fs: Seq<Field>, name: Seq<char>) -> nat {
    plen_prefix(fs, field_index(fs, name))
}

proof fn lemma_first_field_unique(fs: Seq<Field>, name: Seq<char>, i: int)
    requires
        is_first_field(fs, name, i),
    ensures
        field_index(fs, name) == i,
{
    let k = field_index(fs, name);
    assert(is_first_field(fs, name, k));
    if k < i {
        assert(fs[k].name@ != name);
    } else if i < k {
        assert(fs[i].name@ != name);
    }
}

/// Slot offset of the first field named `field_name` within a record with
/// `fields`: the total slot count of the fields before it.
pub fn record_field_offset(fields: &[Field], field_name: &str) -> (r: usize)
    requires
        has_field(fields@, field_name@),
        plen_prefix(fields@, fields@.len() as int) <= usize::MAX,
    ensures
        is_first_field(fields@, field_name@, field_index(fields@, field_name@)),
        r == field_offset(fields@, field_name@),
{
    let ghost fs = fields@;
    let ghost name = field_name@;
    let owned = field_name.to_owned();
    let mut offset: usize = 0;
    let mut i: usize = 0;
    assert(fs.subrange(0, 0) =~= Seq::<Field>::empty());
    while i < fields.len()
        invariant
            i <= fs.len(),
            fs == fields@,
            name == field_name@,
            owned@ == name,
            has_field(fs, name),
            plen_prefix(fs, fs.len() as int) <= usize::MAX,
            offset == plen_prefix(fs, i as int),
            forall|j: int| 0 <= j < i ==> fs[j].name@ != name,
        decreases fs.len() - i,
    {
        if fields[i].name == owned {
            proof {
                assert(is_first_field(fs, name, i as int));
                lemma_first_field_unique(fs, name, i as int);
            }
            return offset;
        }
        proof {
            lemma_plen_prefix_step(fs, i as int);
            lemma_plen_prefix_mono(fs, i as int + 1, fs.len() as int);
        }
        let len = fields[i].typ.physical_len();
        offset = offset + len;
        i = i + 1;
    }
    proof {
        let k = choose|k: int| 0 <= k < fs.len() && fs[k].name@ == name;
        assert(fs[k].name@ != name);
    }
    0
}

/// Slots of fields `0..k` of the record var `v`.
pub open spec fn record_slots(v: VarV, k: nat) -> Seq<VarV>
    decreases k,
{
    if k == 0 {
        Seq::empty()
    } else {
        record_slots(v, (k - 1) as nat) + slot_list(child(v, (k - 1) as nat, slot_typ(v.typ, (k - 1) as nat)->0))
    }
}

/// Values of the operands of fields `0..k`, in order.
pub open spec fn record_vals(ideal: Ideal, ops: Seq<(String, Operand)>, k: nat) -> Seq<spec_fn(Env) -> int>
    decreases k,
{
    if k == 0 {
        Seq::empty()
    } else {
        record_vals(ideal, ops, (k - 1) as nat) + poly_vals(operand_polys(ops[k - 1].1, ideal))
    }
}

/// What laying out `ops` in the record var `var` needs: a record with a
/// field for each operand whose slots the operand fills exactly.
pub open spec fn record_op_ok(ideal: Ideal, var: VarV, ops: Seq<(String, Operand)>) -> bool {
    &&& var.typ is Record
    &&& ops.len() <= var.typ->Record_0.len()
    &&& slots_ok(var.typ)
    &&& forall|i: int| 0 <= i < ops.len() ==> operand_ok(#[trigger] ops[i].1, ideal)
    &&& forall|i: int| 0 <= i < ops.len() ==> #[trigger] operand_polys(ops[i].1, ideal).len()
        == slot_list(child(var, i as nat, slot_typ(var.typ, i as nat)->0)).len()
}

/// Lay out a record: field `i` of `var` is bound to the slots of the
/// operand of `fields[i]`.
pub fn record_op(ideal: &mut Ideal, var: &Var, fields: &[(String, Operand)])
    requires
        old(ideal).wf(),
        record_op_ok(*old(ideal), var@, fields@),
    ensures
        encodes(*old(ideal), *final(ideal), record_slots(var@, fields@.len()), record_vals(*old(ideal), fields@, fields@.len())),
{
    let ghost start = *ideal;
    let ghost fs = var.typ@->Record_0;
    proof {
        lemma_encodes_nothing(start);
    }
    let mut i: usize = 0;
    while i < fields.len()
        invariant
            i <= fields@.len(),
            ideal.wf(),
            ideal.names() == start.names(),
            record_op_ok(start, var@, fields@),
            fs == var.typ@->Record_0,
            encodes(start, *ideal, record_slots(var@, i as nat), record_vals(start, fields@, i as nat)),
            all_below(record_slots(var@, i as nat), var@, 0, i as nat),
        decreases fields@.len() - i,
    {
        let ghost mid = *ideal;
        proof {
            crate::var::lemma_slots_ok_child(var@.typ, i as nat);
        }
        let field_var = var.with_index(i).unwrap();
        let field_polys = PolySource::ref_vars(&fields[i].1, ideal);
        let ghost c = child(var@, i as nat, slot_typ(var@.typ, i as nat)->0);
        assert(operand_polys(fields@[i as int].1, *ideal) == operand_polys(fields@[i as int].1, start));
        link_to_polys(ideal, &field_var, field_polys);
        proof {
            lemma_child_slots_below(var@, i as nat, slot_typ(var@.typ, i as nat)->0);
            lemma_below_concat(record_slots(var@, i as nat), slot_list(c), var@, 0, i as nat, i as nat + 1);
            lemma_encodes_compose(
                start,
                mid,
                *ideal,
                record_slots(var@, i as nat),
                record_vals(start, fields@, i as nat),
                slot_list(c),
                poly_vals(operand_polys(fields@[i as int].1, start)),
            );
        }
        i = i + 1;
    }
}

/// Slots `off..off + n` of `ps`.
pub open spec fn window(ps: Seq<PolyV>, off: nat, n: nat) -> Seq<PolyV> {
    ps.subrange(off as int, (off + n) as int)
}

/// What projecting field `field` out of `inner` into `var` needs: `inner` is
/// a record with such a field, and the field's slots fit `var`'s.
pub open spec fn proj_op_ok(ideal: Ideal, var: VarV, inner: Operand, field: Seq<char>) -> bool {
    let t = match inner {
        Operand::Ref(_, t) => t,
        Operand::Value(_, t) => t,
    };
    &&& operand_ok(inner, ideal)
    &&& t is Record
    &&& has_field(t->Record_0@, field)
    &&& plen(t@) <= usize::MAX
    &&& slots_ok(var.typ)
    &&& field_offset(t->Record_0@, field) + slot_list(var).len() <= operand_polys(inner, ideal).len()
}

/// Project field `field` out of the record operand `inner`: the slots of
/// `var` are bound to the record's slots from the field's offset on.
pub fn proj_op(ideal: &mut Ideal, var: &Var, inner: &Operand, field: &str)
    requires
        old(ideal).wf(),
        proj_op_ok(*old(ideal), var@, *inner, field@),
    ensures
        ({
            let t = match *inner {
                Operand::Ref(_, t) => t,
                Operand::Value(_, t) => t,
            };
            encodes(
                *old(ideal),
                *final(ideal),
                slot_list(var@),
                poly_vals(window(operand_polys(*inner, *old(ideal)), field_offset(t->Record_0@, field@), slot_list(var@).len())),
            )
        }),
{
    let inner_polys = PolySource::ref_vars(inner, ideal);
    let fields = match inner.typ() {
        ATyp::Record(fs) => fs,
        _ => {
            return;
        },
    };
    proof {
        lemma_plen_prefix_full(fields@);
        crate::typ::lemma_fields_view(fields@);
    }
    let offset = record_field_offset(fields.as_slice(), field);
    let slots = var.slots();
    let n_slots = slots.len();
    let ghost want = window(pviews(inner_polys@), offset as nat, n_slots as nat);
    let total = inner_polys.len();
    let mut polys: Vec<Polynomial> = Vec::new();
    let mut j: usize = 0;
    while j < n_slots
        invariant
            j <= n_slots,
            total == inner_polys@.len(),
            offset + n_slots <= inner_polys@.len(),
            want == window(pviews(inner_polys@), offset as nat, n_slots as nat),
            polys@.len() == j,
            forall|q: int| 0 <= q < j ==> #[trigger] polys@[q]@ == want[q],
        decreases n_slots - j,
    {
        polys.push(inner_polys[offset + j].clone());
        j = j + 1;
    }
    assert(pviews(polys@) =~= want);
    link_to_polys(ideal, var, polys);
}

} // verus!

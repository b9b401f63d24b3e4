//! Slot-wise products and dot products of non-polynomial operands.
use vstd::prelude::*;

use crate::arith::{ew_enc, ew_ok, firsts, lemma_elem_len_pub, lemma_encodes_vals, lemma_ew_extends, mul_op_inner, seconds, slice, SlotOp};
use crate::encode::{binds, encodes, lemma_binds_compose, link_to_polys, poly_vals};
use crate::field::modulus;
use crate::ideal::Ideal;
use crate::namespace::{gb_name, IdealBuilder};
use crate::poly::Polynomial;
use crate::poly_source::{op_typ, operand_ok, operand_polys, pviews, Operand, PolySource};
use crate::polyv::{eval, is_prod, is_sum, Env, PolyV};
use crate::typ::{has_poly, has_poly_type, plen, ATyp, TypV};
use crate::var::{extends, lemma_slot_count, lemma_slots_extend, slot_list, slots_ok, Qualifier, Ref, Var, VarV};

verus! {

broadcast use {crate::field::lemma_val_lt, crate::polyv::lemma_eval_lt};

/// Values of the slot-wise product of `(ta, pa)` and `(tb, pb)`: element by
/// element over equal-length vectors, each element of a vector against the
/// whole other operand, slot by slot below.
pub open spec fn sw_vals(ta: TypV, pa: Seq<PolyV>, tb: TypV, pb: Seq<PolyV>) -> Seq<spec_fn(Env) -> int>
    decreases ta, tb, 0nat,
{
    match ta {
        TypV::Vec(ea, na) => match tb {
            TypV::Vec(eb, nb) => if na == nb {
                sw_vv(*ea, pa, *eb, pb, na)
            } else {
                sw_vl(*ea, pa, tb, pb, na)
            },
            _ => sw_vl(*ea, pa, tb, pb, na),
        },
        _ => match tb {
            TypV::Vec(eb, nb) => sw_vr(ta, pa, *eb, pb, nb),
            _ => Seq::new(
                if pa.len() <= pb.len() { pa.len() } else { pb.len() },
                |j: int| (|env: Env| (eval(pa[j], env) * eval(pb[j], env)) as int),
            ),
        },
    }
}

pub open spec fn sw_vv(ea: TypV, pa: Seq<PolyV>, eb: TypV, pb: Seq<PolyV>, i: nat) -> Seq<spec_fn(Env) -> int>
    decreases ea, eb, i,
{
    if i == 0 {
        Seq::empty()
    } else {
        let k = (i - 1) as nat;
        sw_vv(ea, pa, eb, pb, k) + sw_vals(ea, slice(pa, ea, k), eb, slice(pb, eb, k))
    }
}

pub open spec fn sw_vl(ea: TypV, pa: Seq<PolyV>, tb: TypV, pb: Seq<PolyV>, i: nat) -> Seq<spec_fn(Env) -> int>
    decreases ea, tb, i,
{
    if i == 0 {
        Seq::empty()
    } else {
        let k = (i - 1) as nat;
        sw_vl(ea, pa, tb, pb, k) + sw_vals(ea, slice(pa, ea, k), tb, pb)
    }
}

pub open spec fn sw_vr(ta: TypV, pa: Seq<PolyV>, eb: TypV, pb: Seq<PolyV>, i: nat) -> Seq<spec_fn(Env) -> int>
    decreases ta, eb, i,
{
    if i == 0 {
        Seq::empty()
    } else {
        let k = (i - 1) as nat;
        sw_vr(ta, pa, eb, pb, k) + sw_vals(ta, pa, eb, slice(pb, eb, k))
    }
}

/// `out` holds polynomials whose values are `vals`, reduced.
pub open spec fn denotes(out: Seq<PolyV>, vals: Seq<spec_fn(Env) -> int>) -> bool {
    &&& out.len() == vals.len()
    &&& forall|j: int, env: Env| 0 <= j < out.len() ==> #[trigger] eval(out[j], env) == vals[j](env) % (modulus() as int)
}

proof fn lemma_denotes_append(a: Seq<PolyV>, va: Seq<spec_fn(Env) -> int>, b: Seq<PolyV>, vb: Seq<spec_fn(Env) -> int>)
    requires
        denotes(a, va),
        denotes(b, vb),
    ensures
        denotes(a + b, va + vb),
{
    assert forall|j: int, env: Env| 0 <= j < (a + b).len() implies #[trigger] eval((a + b)[j], env)
        == (va + vb)[j](env) % (modulus() as int) by {
        if j < a.len() {
            assert((a + b)[j] == a[j]);
            assert((va + vb)[j] == va[j]);
        } else {
            assert((a + b)[j] == b[j - a.len()]);
            assert((va + vb)[j] == vb[j - a.len()]);
        }
    }
}

fn append_polys(out: &mut Vec<Polynomial>, part: Vec<Polynomial>)
    ensures
        pviews(final(out)@) == pviews(old(out)@) + pviews(part@),
{
    let ghost before = out@;
    let mut t: usize = 0;
    while t < part.len()
        invariant
            t <= part@.len(),
            out@.len() == before.len() + t,
            forall|q: int| 0 <= q < before.len() ==> #[trigger] out@[q] == before[q],
            forall|q: int| 0 <= q < t ==> #[trigger] out@[before.len() + q]@ == part@[q]@,
        decreases part@.len() - t,
    {
        out.push(part[t].clone());
        t = t + 1;
    }
    assert forall|q: int| 0 <= q < out@.len() implies #[trigger] pviews(out@)[q] == (pviews(before) + pviews(part@))[q] by {
        if q >= before.len() {
            assert(out@[before.len() + (q - before.len())]@ == part@[q - before.len()]@);
        }
    }
    assert(pviews(out@) =~= pviews(before) + pviews(part@));
}

/// Slot-wise product of `a` and `b`, recursing through vectors (one side
/// broadcast against the elements of the other when only one is a vector).
pub fn mul_slotwise(a: &PolySource, b: &PolySource) -> (r: Vec<Polynomial>)
    requires
        a.wf(),
        b.wf(),
    ensures
        denotes(pviews(r@), sw_vals(a.typ@, a.pv(), b.typ@, b.pv())),
    decreases a.typ@, b.typ@,
{
    let ghost (ta, pa, tb, pb) = (a.typ@, a.pv(), b.typ@, b.pv());
    let a_vec = match &a.typ {
        ATyp::Vec(_, na) => Some(*na),
        _ => None,
    };
    let b_vec = match &b.typ {
        ATyp::Vec(_, nb) => Some(*nb),
        _ => None,
    };
    let mut out: Vec<Polynomial> = Vec::new();
    if a_vec.is_none() && b_vec.is_none() {
        let len = if a.polys.len() <= b.polys.len() { a.polys.len() } else { b.polys.len() };
        let mut j: usize = 0;
        while j < len
            invariant
                j <= len,
                len <= a.polys@.len(),
                len <= b.polys@.len(),
                out@.len() == j,
                forall|q: int| 0 <= q < j ==> is_prod(#[trigger] out@[q]@, a.polys@[q]@, b.polys@[q]@),
            decreases len - j,
        {
            out.push(a.polys[j].mul(&b.polys[j]));
            j = j + 1;
        }
        proof {
            let v = sw_vals(ta, pa, tb, pb);
            assert forall|j: int, env: Env| 0 <= j < out@.len() implies #[trigger] eval(pviews(out@)[j], env)
                == v[j](env) % (modulus() as int) by {
                assert(pa[j] == a.polys@[j]@);
                assert(pb[j] == b.polys@[j]@);
            }
        }
        return out;
    }
    proof {
        assert(denotes(pviews(out@), Seq::empty()));
    }
    let pair = match (a_vec, b_vec) {
        (Some(na), Some(nb)) => na == nb,
        _ => false,
    };
    if pair {
        let n = a_vec.unwrap();
        let ghost ea = *ta->Vec_0;
        let ghost eb = *tb->Vec_0;
        assert(sw_vals(ta, pa, tb, pb) == sw_vv(ea, pa, eb, pb, n as nat));
        let mut i: usize = 0;
        while i < n
            invariant
                i <= n,
                ta == TypV::Vec(Box::new(ea), n as nat),
                tb == TypV::Vec(Box::new(eb), n as nat),
                a.typ@ == ta,
                b.typ@ == tb,
                pa == a.pv(),
                pb == b.pv(),
                a.wf(),
                b.wf(),
                denotes(pviews(out@), sw_vv(ea, pa, eb, pb, i as nat)),
            decreases n - i,
        {
            proof {
                lemma_elem_len_pub(pa, ea, n as nat, i as nat);
                lemma_elem_len_pub(pb, eb, n as nat, i as nat);
            }
            let a_elem = a.at_index(i).unwrap();
            let b_elem = b.at_index(i).unwrap();
            let part = mul_slotwise(&a_elem, &b_elem);
            let ghost before = pviews(out@);
            append_polys(&mut out, part);
            proof {
                lemma_denotes_append(before, sw_vv(ea, pa, eb, pb, i as nat), pviews(part@), sw_vals(ea, slice(pa, ea, i as nat), eb, slice(pb, eb, i as nat)));
            }
            i = i + 1;
        }
    } else if a_vec.is_some() {
        let n = a_vec.unwrap();
        let ghost ea = *ta->Vec_0;
        assert(sw_vals(ta, pa, tb, pb) == sw_vl(ea, pa, tb, pb, n as nat));
        let mut i: usize = 0;
        while i < n
            invariant
                i <= n,
                ta == TypV::Vec(Box::new(ea), n as nat),
                a.typ@ == ta,
                b.typ@ == tb,
                pa == a.pv(),
                pb == b.pv(),
                a.wf(),
                b.wf(),
                denotes(pviews(out@), sw_vl(ea, pa, tb, pb, i as nat)),
            decreases n - i,
        {
            proof {
                lemma_elem_len_pub(pa, ea, n as nat, i as nat);
            }
            let a_elem = a.at_index(i).unwrap();
            let part = mul_slotwise(&a_elem, b);
            let ghost before = pviews(out@);
            append_polys(&mut out, part);
            proof {
                lemma_denotes_append(before, sw_vl(ea, pa, tb, pb, i as nat), pviews(part@), sw_vals(ea, slice(pa, ea, i as nat), tb, pb));
            }
            i = i + 1;
        }
    } else {
        let n = b_vec.unwrap();
        let ghost eb = *tb->Vec_0;
        assert(!(ta is Vec));
        assert(sw_vals(ta, pa, tb, pb) == sw_vr(ta, pa, eb, pb, n as nat));
        let mut i: usize = 0;
        while i < n
            invariant
                i <= n,
                tb == TypV::Vec(Box::new(eb), n as nat),
                a.typ@ == ta,
                b.typ@ == tb,
                pa == a.pv(),
                pb == b.pv(),
                a.wf(),
                b.wf(),
                denotes(pviews(out@), sw_vr(ta, pa, eb, pb, i as nat)),
            decreases n - i,
        {
            proof {
                lemma_elem_len_pub(pb, eb, n as nat, i as nat);
            }
            let b_elem = b.at_index(i).unwrap();
            let part = mul_slotwise(a, &b_elem);
            let ghost before = pviews(out@);
            append_polys(&mut out, part);
            proof {
                lemma_denotes_append(before, sw_vr(ta, pa, eb, pb, i as nat), pviews(part@), sw_vals(ta, pa, eb, slice(pb, eb, i as nat)));
            }
            i = i + 1;
        }
    }
    out
}


/// `sum_{i < count}` of slot `j` of the slot-wise product of element `i` of
/// two vectors.
pub open spec fn dot_sum(ea: TypV, pa: Seq<PolyV>, eb: TypV, pb: Seq<PolyV>, j: int, env: Env, count: nat) -> int
    decreases count,
{
    if count == 0 {
        0
    } else {
        let k = (count - 1) as nat;
        dot_sum(ea, pa, eb, pb, j, env, k) + sw_vals(ea, slice(pa, ea, k), eb, slice(pb, eb, k))[j](env)
    }
}

/// Values of the `len` slots of the dot product of two `n`-element vectors.
pub open spec fn dot_vals(ea: TypV, pa: Seq<PolyV>, eb: TypV, pb: Seq<PolyV>, n: nat, len: nat) -> Seq<spec_fn(Env) -> int> {
    Seq::new(len, |j: int| (|env: Env| dot_sum(ea, pa, eb, pb, j, env, n)))
}

/// Dot product of two equal-length vectors of non-polynomial values: the
/// sum over elements of their slot-wise products, one polynomial per slot
/// of the result `var`.
pub fn dot_slotwise(var: &Var, a: &PolySource, b: &PolySource) -> (r: Vec<Polynomial>)
    requires
        a.wf(),
        b.wf(),
        a.typ@ is Vec,
        b.typ@ is Vec,
        a.typ@->Vec_1 == b.typ@->Vec_1,
        plen(var.typ@) <= usize::MAX,
        forall|i: nat| i < a.typ@->Vec_1 ==> plen(var.typ@) <= #[trigger] sw_vals(
            *a.typ@->Vec_0,
            slice(a.pv(), *a.typ@->Vec_0, i),
            *b.typ@->Vec_0,
            slice(b.pv(), *b.typ@->Vec_0, i),
        ).len(),
    ensures
        denotes(pviews(r@), dot_vals(*a.typ@->Vec_0, a.pv(), *b.typ@->Vec_0, b.pv(), a.typ@->Vec_1, plen(var.typ@))),
{
    let ghost (ea, pa, eb, pb) = (*a.typ@->Vec_0, a.pv(), *b.typ@->Vec_0, b.pv());
    let ghost md = modulus() as int;
    let n = match &a.typ {
        ATyp::Vec(_, na) => *na,
        _ => 0,
    };
    let len = var.typ.physical_len();
    let mut acc: Vec<Polynomial> = Vec::new();
    let mut t: usize = 0;
    while t < len
        invariant
            t <= len,
            acc@.len() == t,
            forall|q: int| 0 <= q < t ==> #[trigger] acc@[q]@ == crate::polyv::lit(0),
        decreases len - t,
    {
        acc.push(Polynomial::zero());
        t = t + 1;
    }
    let mut i: usize = 0;
    while i < n
        invariant
            i <= n,
            n == a.typ@->Vec_1,
            a.typ@ == TypV::Vec(Box::new(ea), n as nat),
            b.typ@ == TypV::Vec(Box::new(eb), n as nat),
            pa == a.pv(),
            pb == b.pv(),
            a.wf(),
            b.wf(),
            md == modulus() as int,
            len == plen(var.typ@),
            forall|k: nat| k < n ==> len <= #[trigger] sw_vals(ea, slice(pa, ea, k), eb, slice(pb, eb, k)).len(),
            acc@.len() == len,
            forall|j: int, env: Env| 0 <= j < len ==> #[trigger] eval(acc@[j]@, env) == dot_sum(ea, pa, eb, pb, j, env, i as nat) % md,
        decreases n - i,
    {
        proof {
            crate::arith::lemma_elem_len_pub(pa, ea, n as nat, i as nat);
            crate::arith::lemma_elem_len_pub(pb, eb, n as nat, i as nat);
        }
        let a_elem = a.at_index(i).unwrap();
        let b_elem = b.at_index(i).unwrap();
        let products = mul_slotwise(&a_elem, &b_elem);
        let ghost pv = sw_vals(ea, slice(pa, ea, i as nat), eb, slice(pb, eb, i as nat));
        assert(len <= pv.len());
        let mut j: usize = 0;
        while j < len
            invariant
                j <= len,
                len <= products@.len(),
                denotes(pviews(products@), pv),
                md == modulus() as int,
                acc@.len() == len,
                forall|q: int, env: Env| 0 <= q < j ==> #[trigger] eval(acc@[q]@, env)
                    == (dot_sum(ea, pa, eb, pb, q, env, i as nat) + pv[q](env)) % md,
                forall|q: int, env: Env| j <= q < len ==> #[trigger] eval(acc@[q]@, env)
                    == dot_sum(ea, pa, eb, pb, q, env, i as nat) % md,
            decreases len - j,
        {
            let s = acc[j].add(&products[j]);
            proof {
                assert forall|env: Env| #[trigger] eval(s@, env) == (dot_sum(ea, pa, eb, pb, j as int, env, i as nat) + pv[j as int](env)) % md by {
                    assert(eval(pviews(products@)[j as int], env) == pv[j as int](env) % md);
                    vstd::arithmetic::div_mod::lemma_add_mod_noop(dot_sum(ea, pa, eb, pb, j as int, env, i as nat), pv[j as int](env), md);
                }
            }
            acc.set(j, s);
            j = j + 1;
        }
        i = i + 1;
    }
    proof {
        let v = dot_vals(ea, pa, eb, pb, n as nat, len as nat);
        assert forall|j: int, env: Env| 0 <= j < acc@.len() implies #[trigger] eval(pviews(acc@)[j], env) == v[j](env) % md by {
        }
    }
    acc
}


/// Accumulator `k` of a dot product into a result of shape `t`: the
/// sentinel local the builder hands out `k` steps after state `b0`.
pub open spec fn dot_acc(b0: IdealBuilder, t: TypV, k: nat) -> VarV {
    VarV {
        reference: Ref((b0.ns.next_sentinel() - k) as usize),
        index: Seq::empty(),
        typ: t,
        qualifier: Qualifier::Local,
        name: gb_name("dot_acc"@, b0.ns.count("dot_acc"@) + k),
    }
}

/// Bindings of the first `i` accumulators: accumulator `k` is the product
/// of element `k` of both vectors.
pub open spec fn acc_enc(b0: IdealBuilder, t: TypV, ea: TypV, pa: Seq<PolyV>, eb: TypV, pb: Seq<PolyV>, i: nat) -> Seq<(VarV, spec_fn(Env) -> int)>
    decreases i,
{
    if i == 0 {
        Seq::empty()
    } else {
        let k = (i - 1) as nat;
        acc_enc(b0, t, ea, pa, eb, pb, k) + ew_enc(SlotOp::Mul, dot_acc(b0, t, k), ea, slice(pa, ea, k), eb, slice(pb, eb, k))
    }
}

/// Slot `j` summed over the first `i` accumulators.
pub open spec fn acc_sum(b0: IdealBuilder, t: TypV, j: int, env: Env, i: nat) -> int
    decreases i,
{
    if i == 0 {
        0
    } else {
        let k = (i - 1) as nat;
        acc_sum(b0, t, j, env, k) + env(slot_list(dot_acc(b0, t, k))[j])
    }
}

/// Values of the result slots of an accumulated dot product of `n` terms.
pub open spec fn acc_vals(b0: IdealBuilder, t: TypV, n: nat) -> Seq<spec_fn(Env) -> int> {
    Seq::new(plen(t), |j: int| (|env: Env| acc_sum(b0, t, j, env, n)))
}

/// What the accumulated form of a dot product of `n` terms into `var`
/// needs: sentinels below the builder's counter that stay clear of `var`,
/// and every element product encodable into its accumulator.
pub open spec fn acc_ok(b0: IdealBuilder, var: VarV, ea: TypV, pa: Seq<PolyV>, eb: TypV, pb: Seq<PolyV>, n: nat) -> bool {
    &&& var.reference.0 + n <= b0.ns.next_sentinel()
    &&& b0.ns.count("dot_acc"@) + n < usize::MAX
    &&& forall|k: nat| k < n ==> #[trigger] ew_ok(SlotOp::Mul, dot_acc(b0, var.typ, k), ea, slice(pa, ea, k), eb, slice(pb, eb, k))
}

/// The accumulated dot product took builder `b0` to `b1` and ideal `i0` to
/// `i1`: each accumulator, introduced in turn, is bound to its element
/// product, and each result slot to the sum of the accumulators' slots.
pub open spec fn acc_done(b0: IdealBuilder, b1: IdealBuilder, i0: Ideal, i1: Ideal, var: VarV, ea: TypV, pa: Seq<PolyV>, eb: TypV, pb: Seq<PolyV>, n: nat) -> bool {
    let e = acc_enc(b0, var.typ, ea, pa, eb, pb, n);
    let o0 = i0.var_order@.len();
    &&& binds(i0, i1, firsts(e) + slot_list(var), seconds(e) + acc_vals(b0, var.typ, n))
    &&& i1.var_order@.len() == o0 + n
    &&& forall|q: int| 0 <= q < o0 ==> #[trigger] i1.var_order@[q] == i0.var_order@[q]
    &&& forall|k: int| 0 <= k < n ==> #[trigger] i1.var_order@[o0 + k]@ == dot_acc(b0, var.typ, k as nat)
    &&& b1.ns.wf()
    &&& b1.ns.next_sentinel() == b0.ns.next_sentinel() - n
    &&& b1.ns.count("dot_acc"@) == b0.ns.count("dot_acc"@) + n
    &&& forall|key: Seq<char>| key != "dot_acc"@ ==> #[trigger] b1.ns.count(key) == b0.ns.count(key)
    &&& b1.ns.witnesses() == b0.ns.witnesses()
    &&& b1.ns.inverses() == b0.ns.inverses()
}

/// Dot product through accumulators: the product of each pair of elements
/// goes into a fresh accumulator of the result's shape, and the result's
/// slots are bound to the sums of the accumulators' slots.
fn dot_accumulate(builder: &mut IdealBuilder, ideal: &mut Ideal, var: &Var, a: &PolySource, b: &PolySource, n: usize)
    requires
        old(ideal).wf(),
        old(builder).ns.wf(),
        a.wf(),
        b.wf(),
        a.typ@ is Vec,
        b.typ@ is Vec,
        a.typ@->Vec_1 == n,
        b.typ@->Vec_1 == n,
        slots_ok(var.typ@),
        slot_list(var@).len() == plen(var.typ@),
        plen(var.typ@) <= usize::MAX,
        acc_ok(*old(builder), var@, *a.typ@->Vec_0, a.pv(), *b.typ@->Vec_0, b.pv(), n as nat),
    ensures
        acc_done(*old(builder), *final(builder), *old(ideal), *final(ideal), var@, *a.typ@->Vec_0, a.pv(), *b.typ@->Vec_0, b.pv(), n as nat),
{
    let ghost (ea, pa, eb, pb) = (*a.typ@->Vec_0, a.pv(), *b.typ@->Vec_0, b.pv());
    let ghost b0 = *builder;
    let ghost i0 = *ideal;
    let ghost t = var.typ@;
    let ghost md = modulus() as int;
    let ghost o0 = ideal.var_order@.len();
    proof {
        builder.ns.lemma_next_sentinel_fits();
    }
    let len = var.typ.physical_len();
    let mut acc: Vec<Polynomial> = Vec::new();
    let mut q: usize = 0;
    while q < len
        invariant
            q <= len,
            acc@.len() == q,
            forall|r: int| 0 <= r < q ==> #[trigger] acc@[r]@ == crate::polyv::lit(0),
        decreases len - q,
    {
        acc.push(Polynomial::zero());
        q = q + 1;
    }
    proof {
        crate::encode::lemma_encodes_nothing(*ideal);
        assert(firsts(acc_enc(b0, t, ea, pa, eb, pb, 0)) =~= Seq::<VarV>::empty());
        assert(seconds(acc_enc(b0, t, ea, pa, eb, pb, 0)) =~= Seq::<spec_fn(Env) -> int>::empty());
        assert forall|j: int, env: Env| 0 <= j < len implies #[trigger] eval(acc@[j]@, env) == acc_sum(b0, t, j, env, 0) % md by {
            vstd::arithmetic::div_mod::lemma_small_mod(0, modulus());
        }
    }
    let mut i: usize = 0;
    while i < n
        invariant
            i <= n,
            a.wf(),
            b.wf(),
            a.typ@ == TypV::Vec(Box::new(ea), n as nat),
            b.typ@ == TypV::Vec(Box::new(eb), n as nat),
            pa == a.pv(),
            pb == b.pv(),
            t == var.typ@,
            md == modulus() as int,
            len == plen(t),
            slots_ok(t),
            b0.ns.next_sentinel() <= usize::MAX,
            slot_list(var@).len() == len,
            acc_ok(b0, var@, ea, pa, eb, pb, n as nat),
            acc@.len() == len,
            forall|j: int, env: Env| 0 <= j < len ==> #[trigger] eval(acc@[j]@, env) == acc_sum(b0, t, j, env, i as nat) % md,
            binds(i0, *ideal, firsts(acc_enc(b0, t, ea, pa, eb, pb, i as nat)), seconds(acc_enc(b0, t, ea, pa, eb, pb, i as nat))),
            forall|r: int| 0 <= r < acc_enc(b0, t, ea, pa, eb, pb, i as nat).len()
                ==> #[trigger] acc_enc(b0, t, ea, pa, eb, pb, i as nat)[r].0.reference.0 > b0.ns.next_sentinel() - i,
            ideal.var_order@.len() == o0 + i,
            forall|r: int| 0 <= r < o0 ==> #[trigger] ideal.var_order@[r] == i0.var_order@[r],
            forall|k: int| 0 <= k < i ==> #[trigger] ideal.var_order@[o0 + k]@ == dot_acc(b0, t, k as nat),
            builder.ns.wf(),
            builder.ns.next_sentinel() == b0.ns.next_sentinel() - i,
            builder.ns.count("dot_acc"@) == b0.ns.count("dot_acc"@) + i,
            forall|key: Seq<char>| key != "dot_acc"@ ==> #[trigger] builder.ns.count(key) == b0.ns.count(key),
            builder.ns.witnesses() == b0.ns.witnesses(),
            builder.ns.inverses() == b0.ns.inverses(),
        decreases n - i,
    {
        let ghost before = *ideal;
        let name = builder.ns.next_name("dot_acc");
        let acc_var = builder.sentinel_var(&name, var.typ.clone(), ideal);
        let ghost mid = *ideal;
        assert(acc_var@ == dot_acc(b0, t, i as nat));
        proof {
            assert(mid.gens() == before.gens());
            assert(mid.defs() == before.defs());
            assert(mid.names() == before.names());
            lemma_elem_len_pub(pa, ea, n as nat, i as nat);
            lemma_elem_len_pub(pb, eb, n as nat, i as nat);
        }
        let a_elem = a.at_index(i).unwrap();
        let b_elem = b.at_index(i).unwrap();
        assert(ew_ok(SlotOp::Mul, dot_acc(b0, t, i as nat), ea, slice(pa, ea, i as nat), eb, slice(pb, eb, i as nat)));
        mul_op_inner(ideal, &acc_var, &a_elem, &b_elem, &var.typ);
        let ghost e_old = acc_enc(b0, t, ea, pa, eb, pb, i as nat);
        let ghost e_new = ew_enc(SlotOp::Mul, dot_acc(b0, t, i as nat), ea, slice(pa, ea, i as nat), eb, slice(pb, eb, i as nat));
        proof {
            lemma_ew_extends(SlotOp::Mul, dot_acc(b0, t, i as nat), ea, slice(pa, ea, i as nat), eb, slice(pb, eb, i as nat));
            assert(firsts(e_old).disjoint(firsts(e_new))) by {
                assert forall|x: int, y: int| 0 <= x < firsts(e_old).len() && 0 <= y < firsts(e_new).len() implies firsts(e_old)[x] != firsts(e_new)[y] by {
                    assert(e_old[x].0.reference.0 > b0.ns.next_sentinel() - i);
                    assert(extends(e_new[y].0, dot_acc(b0, t, i as nat)));
                }
            }
            lemma_binds_compose(i0, mid, *ideal, firsts(e_old), seconds(e_old), firsts(e_new), seconds(e_new));
            assert(acc_enc(b0, t, ea, pa, eb, pb, (i + 1) as nat) == e_old + e_new);
            assert(firsts(e_old + e_new) =~= firsts(e_old) + firsts(e_new));
            assert(seconds(e_old + e_new) =~= seconds(e_old) + seconds(e_new));
            assert forall|r: int| 0 <= r < (e_old + e_new).len() implies #[trigger] (e_old + e_new)[r].0.reference.0 > b0.ns.next_sentinel() - (i + 1) by {
                if r < e_old.len() {
                    assert((e_old + e_new)[r] == e_old[r]);
                } else {
                    assert((e_old + e_new)[r] == e_new[r - e_old.len()]);
                    assert(extends(e_new[r - e_old.len()].0, dot_acc(b0, t, i as nat)));
                }
            }
            lemma_slot_count(acc_var@, var@);
        }
        let acc_slots = acc_var.slots();
        let mut j: usize = 0;
        while j < len
            invariant
                j <= len,
                acc_slots@.len() == len,
                forall|r: int| 0 <= r < len ==> #[trigger] acc_slots@[r]@ == slot_list(dot_acc(b0, t, i as nat))[r],
                md == modulus() as int,
                acc@.len() == len,
                forall|r: int, env: Env| 0 <= r < j ==> #[trigger] eval(acc@[r]@, env) == acc_sum(b0, t, r, env, (i + 1) as nat) % md,
                forall|r: int, env: Env| j <= r < len ==> #[trigger] eval(acc@[r]@, env) == acc_sum(b0, t, r, env, i as nat) % md,
            decreases len - j,
        {
            let s = acc[j].add(&Polynomial::var(&acc_slots[j]));
            proof {
                assert forall|env: Env| #[trigger] eval(s@, env) == acc_sum(b0, t, j as int, env, (i + 1) as nat) % md by {
                    let x = acc_sum(b0, t, j as int, env, i as nat);
                    let y = env(slot_list(dot_acc(b0, t, i as nat))[j as int]) as int;
                    vstd::arithmetic::div_mod::lemma_add_mod_noop(x, y, md);
                }
            }
            acc.set(j, s);
            j = j + 1;
        }
        i = i + 1;
    }
    let ghost pre = *ideal;
    let ghost e = acc_enc(b0, t, ea, pa, eb, pb, n as nat);
    link_to_polys(ideal, var, acc);
    proof {
        let want = acc_vals(b0, t, n as nat);
        let got = poly_vals(pviews(acc@));
        assert forall|r: int, env: Env| 0 <= r < want.len() implies #[trigger] (got[r](env) % md) == want[r](env) % md by {
            vstd::arithmetic::div_mod::lemma_mod_twice(acc_sum(b0, t, r, env, n as nat), md);
            assert(eval(acc@[r]@, env) == acc_sum(b0, t, r, env, n as nat) % md);
        }
        lemma_encodes_vals(pre, *ideal, slot_list(var@), got, want);
        lemma_slots_extend(var@);
        assert(firsts(e).disjoint(slot_list(var@))) by {
            assert forall|x: int, y: int| 0 <= x < firsts(e).len() && 0 <= y < slot_list(var@).len() implies firsts(e)[x] != slot_list(var@)[y] by {
                assert(e[x].0.reference.0 > b0.ns.next_sentinel() - n);
                assert(extends(slot_list(var@)[y], var@));
            }
        }
        lemma_binds_compose(i0, pre, *ideal, firsts(e), seconds(e), slot_list(var@), want);
    }
}

/// What a dot product of `(ta, pa)` and `(tb, pb)` into `var` needs: two
/// vectors of one length, a result whose slots fit, and, by the result's
/// shape, element products as wide as the result or accumulators that fit
/// (see [`acc_ok`]).
pub open spec fn dot_ok(b0: IdealBuilder, var: VarV, ta: TypV, pa: Seq<PolyV>, tb: TypV, pb: Seq<PolyV>) -> bool {
    &&& pa.len() == plen(ta)
    &&& pb.len() == plen(tb)
    &&& ta is Vec
    &&& tb is Vec
    &&& ta->Vec_1 == tb->Vec_1
    &&& slots_ok(var.typ)
    &&& slot_list(var).len() == plen(var.typ)
    &&& plen(var.typ) <= usize::MAX
    &&& !has_poly(var.typ) ==> forall|i: nat| i < ta->Vec_1 ==> plen(var.typ) <= #[trigger] sw_vals(
        *ta->Vec_0,
        slice(pa, *ta->Vec_0, i),
        *tb->Vec_0,
        slice(pb, *tb->Vec_0, i),
    ).len()
    &&& has_poly(var.typ) ==> acc_ok(b0, var, *ta->Vec_0, pa, *tb->Vec_0, pb, ta->Vec_1)
}

/// A dot product into `var` took builder `b0` to `b1` and ideal `i0` to
/// `i1`: a result without polynomial-shaped parts is bound slot by slot to
/// the sums of element products ([`dot_vals`]) with the builder untouched;
/// otherwise accumulators carry the products ([`acc_done`]).
pub open spec fn dot_done(b0: IdealBuilder, b1: IdealBuilder, i0: Ideal, i1: Ideal, var: VarV, ta: TypV, pa: Seq<PolyV>, tb: TypV, pb: Seq<PolyV>) -> bool {
    &&& !has_poly(var.typ) ==> {
        &&& encodes(i0, i1, slot_list(var), dot_vals(*ta->Vec_0, pa, *tb->Vec_0, pb, ta->Vec_1, plen(var.typ)))
        &&& b1 == b0
    }
    &&& has_poly(var.typ) ==> acc_done(b0, b1, i0, i1, var, *ta->Vec_0, pa, *tb->Vec_0, pb, ta->Vec_1)
}

/// Dot product of two equal-length vectors into `var`. Results without
/// polynomial-shaped parts are summed slot by slot directly; otherwise each
/// element product goes through an accumulator.
pub fn dot_op_inner(builder: &mut IdealBuilder, ideal: &mut Ideal, var: &Var, a: &PolySource, b: &PolySource)
    requires
        old(ideal).wf(),
        old(builder).ns.wf(),
        dot_ok(*old(builder), var@, a.typ@, a.pv(), b.typ@, b.pv()),
    ensures
        dot_done(*old(builder), *final(builder), *old(ideal), *final(ideal), var@, a.typ@, a.pv(), b.typ@, b.pv()),
{
    let n = match &a.typ {
        ATyp::Vec(_, na) => *na,
        _ => 0,
    };
    if !has_poly_type(&var.typ) {
        let acc = dot_slotwise(var, a, b);
        let ghost pre = *ideal;
        link_to_polys(ideal, var, acc);
        proof {
            let md = modulus() as int;
            let want = dot_vals(*a.typ@->Vec_0, a.pv(), *b.typ@->Vec_0, b.pv(), a.typ@->Vec_1, plen(var.typ@));
            let got = poly_vals(pviews(acc@));
            assert forall|r: int, env: Env| 0 <= r < want.len() implies #[trigger] (got[r](env) % md) == want[r](env) % md by {
                assert(eval(pviews(acc@)[r], env) == want[r](env) % md);
                vstd::arithmetic::div_mod::lemma_mod_twice(want[r](env), md);
            }
            lemma_encodes_vals(pre, *ideal, slot_list(var@), got, want);
        }
    } else {
        dot_accumulate(builder, ideal, var, a, b, n);
    }
}


/// Dot product of two vector operands into `var` (see [`dot_op_inner`]).
pub fn dot_op(builder: &mut IdealBuilder, ideal: &mut Ideal, var: &Var, a: &Operand, b: &Operand)
    requires
        old(ideal).wf(),
        old(builder).ns.wf(),
        operand_ok(*a, *old(ideal)),
        operand_ok(*b, *old(ideal)),
        dot_ok(*old(builder), var@, op_typ(*a), operand_polys(*a, *old(ideal)), op_typ(*b), operand_polys(*b, *old(ideal))),
    ensures
        dot_done(
            *old(builder),
            *final(builder),
            *old(ideal),
            *final(ideal),
            var@,
            op_typ(*a),
            operand_polys(*a, *old(ideal)),
            op_typ(*b),
            operand_polys(*b, *old(ideal)),
        ),
{
    let a_src = PolySource::from_ref_vars(ideal, a);
    let b_src = PolySource::from_ref_vars(ideal, b);
    dot_op_inner(builder, ideal, var, &a_src, &b_src);
}

} // verus!

//! Binding the slots of a variable to polynomials: each slot `s` gets the
//! definition `s = p` and the generator `p - s`.
use vstd::prelude::*;

use crate::field::modulus;
use crate::ideal::Ideal;
use crate::poly::Polynomial;
use crate::poly_source::pviews;
use crate::polyv::{eval, lemma_mod_diff, Env, PolyV};
use crate::var::{lemma_slots_distinct, slot_list, slots_ok, Var, VarV};

verus! {

broadcast use {crate::field::lemma_val_lt, crate::polyv::lemma_eval_lt};

/// `new` is `old` after binding each slot `slots[j]`, in order, to a
/// polynomial whose value under every assignment is `vals[j]` (reduced):
/// the slot is defined as that polynomial and the generator
/// `polynomial - slot` is appended. Nothing else changes but, possibly, the
/// order in which variables were introduced.
pub open spec fn binds(old: Ideal, new: Ideal, slots: Seq<VarV>, vals: Seq<spec_fn(Env) -> int>) -> bool {
    &&& new.wf()
    &&& slots.len() == vals.len()
    &&& new.names() == old.names()
    &&& new.gens().len() == old.gens().len() + slots.len()
    &&& forall|i: int| 0 <= i < old.gens().len() ==> #[trigger] new.gens()[i] == old.gens()[i]
    &&& new.defs().dom() == old.defs().dom() + slots.to_set()
    &&& forall|k: VarV| old.defs().contains_key(k) && !slots.contains(k) ==> #[trigger] new.defs()[k] == old.defs()[k]
    &&& forall|j: int, env: Env| 0 <= j < slots.len() ==> #[trigger] eval(new.defs()[slots[j]], env)
        == vals[j](env) % (modulus() as int)
    &&& forall|j: int, env: Env| 0 <= j < slots.len() ==> #[trigger] eval(new.gens()[old.gens().len() + j], env)
        == (vals[j](env) - env(slots[j])) % (modulus() as int)
}

/// [`binds`], with no variable introduced.
pub open spec fn encodes(old: Ideal, new: Ideal, slots: Seq<VarV>, vals: Seq<spec_fn(Env) -> int>) -> bool {
    &&& binds(old, new, slots, vals)
    &&& new.var_order == old.var_order
}

/// The values of a list of polynomials.
pub open spec fn poly_vals(ps: Seq<PolyV>) -> Seq<spec_fn(Env) -> int> {
    ps.map_values(|p: PolyV| (|env: Env| eval(p, env) as int))
}

/// Binding nothing changes nothing.
pub proof fn lemma_encodes_nothing(i: Ideal)
    requires
        i.wf(),
    ensures
        encodes(i, i, Seq::empty(), Seq::empty()),
{
    assert(i.defs().dom() =~= i.defs().dom() + Seq::<VarV>::empty().to_set());
}

/// Two bindings in a row, of disjoint slots, are one binding of the
/// concatenated slots.
pub proof fn lemma_binds_compose(
    a: Ideal,
    b: Ideal,
    c: Ideal,
    s1: Seq<VarV>,
    v1: Seq<spec_fn(Env) -> int>,
    s2: Seq<VarV>,
    v2: Seq<spec_fn(Env) -> int>,
)
    requires
        binds(a, b, s1, v1),
        binds(b, c, s2, v2),
        s1.disjoint(s2),
    ensures
        binds(a, c, s1 + s2, v1 + v2),
{
    let s = s1 + s2;
    let v = v1 + v2;
    let n = a.gens().len();
    assert forall|x: VarV| (s1 + s2).to_set().contains(x) <==> (s1.to_set() + s2.to_set()).contains(x) by {
        if s.contains(x) {
            let i = choose|i: int| 0 <= i < s.len() && s[i] == x;
            if i < s1.len() {
                assert(s1[i] == x);
            } else {
                assert(s2[i - s1.len()] == x);
            }
        }
        if s1.contains(x) {
            let i = choose|i: int| 0 <= i < s1.len() && s1[i] == x;
            assert(s[i] == x);
        }
        if s2.contains(x) {
            let i = choose|i: int| 0 <= i < s2.len() && s2[i] == x;
            assert(s[s1.len() + i] == x);
        }
    }
    assert(c.defs().dom() =~= a.defs().dom() + s.to_set());
    assert forall|k: VarV| a.defs().contains_key(k) && !s.contains(k) implies #[trigger] c.defs()[k] == a.defs()[k] by {
        if s1.contains(k) {
            let i = choose|i: int| 0 <= i < s1.len() && s1[i] == k;
            assert(s[i] == k);
        }
        if s2.contains(k) {
            let i = choose|i: int| 0 <= i < s2.len() && s2[i] == k;
            assert(s[s1.len() + i] == k);
        }
    }
    assert forall|j: int, env: Env| 0 <= j < s.len() implies #[trigger] eval(c.defs()[s[j]], env)
        == v[j](env) % (modulus() as int) by {
        if j < s1.len() {
            assert(s[j] == s1[j]);
            assert(v[j] == v1[j]);
            if s2.contains(s1[j]) {
                let t = choose|t: int| 0 <= t < s2.len() && s2[t] == s1[j];
                assert(s1[j] != s2[t]);
            }
            assert(b.defs().contains_key(s1[j]));
            assert(c.defs()[s1[j]] == b.defs()[s1[j]]);
        } else {
            assert(s[j] == s2[j - s1.len()]);
            assert(v[j] == v2[j - s1.len()]);
        }
    }
    assert forall|j: int, env: Env| 0 <= j < s.len() implies #[trigger] eval(c.gens()[n + j], env)
        == (v[j](env) - env(s[j])) % (modulus() as int) by {
        if j < s1.len() {
            assert(s[j] == s1[j]);
            assert(v[j] == v1[j]);
            assert(c.gens()[n + j] == b.gens()[n + j]);
        } else {
            let t = j - s1.len();
            assert(s[j] == s2[t]);
            assert(v[j] == v2[t]);
            assert(n + j == b.gens().len() + t);
        }
    }
    assert forall|i: int| 0 <= i < n implies #[trigger] c.gens()[i] == a.gens()[i] by {
        assert(c.gens()[i] == b.gens()[i]);
    }
}

/// Two encodings in a row, of disjoint slots, are one encoding of the
/// concatenated slots.
pub proof fn lemma_encodes_compose(
    a: Ideal,
    b: Ideal,
    c: Ideal,
    s1: Seq<VarV>,
    v1: Seq<spec_fn(Env) -> int>,
    s2: Seq<VarV>,
    v2: Seq<spec_fn(Env) -> int>,
)
    requires
        encodes(a, b, s1, v1),
        encodes(b, c, s2, v2),
        s1.disjoint(s2),
    ensures
        encodes(a, c, s1 + s2, v1 + v2),
{
    lemma_binds_compose(a, b, c, s1, v1, s2, v2);
}

/// `d` with `slots[j]` defined as `ps[j]`, in order.
pub open spec fn bind_defs(d: Map<VarV, PolyV>, slots: Seq<VarV>, ps: Seq<PolyV>) -> Map<VarV, PolyV>
    decreases slots.len(),
{
    if slots.len() == 0 {
        d
    } else {
        bind_defs(d, slots.drop_last(), ps).insert(slots.last(), ps[slots.len() - 1])
    }
}

/// Bind slot `j` of `var` to `polys[j]`: define the slot as the polynomial
/// and add the generator `polys[j] - slot`.
pub fn link_to_polys(ideal: &mut Ideal, var: &Var, polys: Vec<Polynomial>)
    requires
        old(ideal).wf(),
        slots_ok(var.typ@),
        slot_list(var@).len() == polys@.len(),
    ensures
        encodes(*old(ideal), *final(ideal), slot_list(var@), poly_vals(pviews(polys@))),
        final(ideal).defs() == bind_defs(old(ideal).defs(), slot_list(var@), pviews(polys@)),
{
    let slots = var.slots();
    let ghost sl = slot_list(var@);
    let ghost vals = poly_vals(pviews(polys@));
    proof {
        lemma_slots_distinct(var@);
        lemma_encodes_nothing(*ideal);
        assert(sl.subrange(0, 0) =~= Seq::<VarV>::empty());
        assert(vals.subrange(0, 0) =~= Seq::<spec_fn(Env) -> int>::empty());
    }
    let mut j: usize = 0;
    while j < slots.len()
        invariant
            j <= slots@.len(),
            slots@.len() == sl.len(),
            sl == slot_list(var@),
            sl.no_duplicates(),
            polys@.len() == sl.len(),
            vals == poly_vals(pviews(polys@)),
            forall|t: int| 0 <= t < slots@.len() ==> #[trigger] slots@[t]@ == sl[t],
            encodes(*old(ideal), *ideal, sl.subrange(0, j as int), vals.subrange(0, j as int)),
            ideal.defs() == bind_defs(old(ideal).defs(), sl.subrange(0, j as int), pviews(polys@)),
        decreases slots@.len() - j,
    {
        let ghost mid = *ideal;
        let ghost k = sl[j as int];
        let ghost p = polys@[j as int]@;
        ideal.pl_insert(&slots[j], &polys[j]);
        proof {
            assert(sl.subrange(0, j + 1).drop_last() =~= sl.subrange(0, j as int));
            assert(ideal.defs() == bind_defs(old(ideal).defs(), sl.subrange(0, j + 1), pviews(polys@)));
        }
        let g = polys[j].sub(&Polynomial::var(&slots[j]));
        let ghost before = ideal.generating_set@;
        ideal.generating_set.push(g);
        proof {
            assert(ideal.gens() =~= pviews(before).push(g@));
            let s1 = sl.subrange(0, j as int);
            let v1 = vals.subrange(0, j as int);
            let s2 = seq![k];
            let v2 = seq![vals[j as int]];
            assert(encodes(mid, *ideal, s2, v2)) by {
                assert(ideal.defs().dom() =~= mid.defs().dom() + s2.to_set()) by {
                    assert(s2.to_set() =~= set![k]);
                }
                assert forall|x: VarV| mid.defs().contains_key(x) && !s2.contains(x) implies #[trigger] ideal.defs()[x] == mid.defs()[x] by {
                    assert(s2[0] == k);
                }
                assert forall|t: int, env: Env| 0 <= t < s2.len() implies #[trigger] eval(ideal.defs()[s2[t]], env)
                    == v2[t](env) % (modulus() as int) by {
                    assert(ideal.defs()[k] == p);
                    vstd::arithmetic::div_mod::lemma_small_mod(eval(p, env), modulus());
                }
                assert forall|t: int, env: Env| 0 <= t < s2.len() implies #[trigger] eval(ideal.gens()[mid.gens().len() + t], env)
                    == (v2[t](env) - env(s2[t])) % (modulus() as int) by {
                    assert(ideal.gens()[mid.gens().len() + t] == g@);
                    lemma_mod_diff(eval(p, env) as int, env(k) as int, modulus() as int);
                    vstd::arithmetic::div_mod::lemma_small_mod(eval(p, env), modulus());
                }
            }
            assert(s1.disjoint(s2)) by {
                assert forall|a: int, b: int| 0 <= a < s1.len() && 0 <= b < s2.len() implies s1[a] != s2[b] by {
                    assert(s1[a] == sl[a]);
                }
            }
            lemma_encodes_compose(*old(ideal), mid, *ideal, s1, v1, s2, v2);
            assert(s1 + s2 =~= sl.subrange(0, j + 1));
            assert(v1 + v2 =~= vals.subrange(0, j + 1));
        }
        j = j + 1;
    }
    assert(sl.subrange(0, sl.len() as int) =~= sl);
    assert(vals.subrange(0, sl.len() as int) =~= vals);
}

/// Defining slots as polynomials leaves every other definition alone.
pub proof fn lemma_bind_defs_other(d: Map<VarV, PolyV>, slots: Seq<VarV>, ps: Seq<PolyV>, k: VarV)
    requires
        !slots.contains(k),
    ensures
        bind_defs(d, slots, ps).contains_key(k) == d.contains_key(k),
        d.contains_key(k) ==> bind_defs(d, slots, ps)[k] == d[k],
    decreases slots.len(),
{
    if slots.len() > 0 {
        assert(!slots.drop_last().contains(k)) by {
            if slots.drop_last().contains(k) {
                let t = choose|t: int| 0 <= t < slots.drop_last().len() && slots.drop_last()[t] == k;
                assert(slots[t] == k);
            }
        }
        assert(slots.last() != k) by {
            assert(slots[slots.len() - 1] == slots.last());
        }
        lemma_bind_defs_other(d, slots.drop_last(), ps, k);
    }
}


/// The variable polynomials of a list of slots.
pub open spec fn var_polys(s: Seq<VarV>) -> Seq<PolyV> {
    s.map_values(|v: VarV| PolyV::Var(v))
}

/// Bind slot `j` of `var` to slot `j` of the witness `wit`: define the
/// slot as the witness variable and add the generator `wit[j] - var[j]`.
pub fn link_to_witness(ideal: &mut Ideal, var: &Var, wit: &Var)
    requires
        old(ideal).wf(),
        slots_ok(var.typ@),
        slots_ok(wit.typ@),
        slot_list(var@).len() == slot_list(wit@).len(),
    ensures
        encodes(*old(ideal), *final(ideal), slot_list(var@), poly_vals(var_polys(slot_list(wit@)))),
        final(ideal).defs() == bind_defs(old(ideal).defs(), slot_list(var@), var_polys(slot_list(wit@))),
{
    let wit_slots = wit.slots();
    let mut polys: Vec<Polynomial> = Vec::new();
    let mut j: usize = 0;
    while j < wit_slots.len()
        invariant
            j <= wit_slots@.len(),
            wit_slots@.len() == slot_list(wit@).len(),
            forall|t: int| 0 <= t < wit_slots@.len() ==> #[trigger] wit_slots@[t]@ == slot_list(wit@)[t],
            polys@.len() == j,
            forall|t: int| 0 <= t < j ==> #[trigger] polys@[t]@ == PolyV::Var(slot_list(wit@)[t]),
        decreases wit_slots@.len() - j,
    {
        polys.push(Polynomial::var(&wit_slots[j]));
        j = j + 1;
    }
    assert(pviews(polys@) =~= var_polys(slot_list(wit@)));
    link_to_polys(ideal, var, polys);
}

} // verus!

//! The ideal being built for one analysis run: its generators, the
//! definitional equations kept aside for inlining, and the namespace that
//! maps each graph node to the variable standing for its value.
use vstd::prelude::*;

use crate::poly::Polynomial;
use crate::poly_source::pviews;
use crate::polyv::{poly_vars, PolyV};
use crate::var::{views, Ref, Var, VarV};

verus! {

/// The map spelled by a list of definitions, later entries overriding
/// earlier ones with the same variable.
pub open spec fn defs_map(s: Seq<(Var, Polynomial)>) -> Map<VarV, PolyV>
    decreases s.len(),
{
    if s.len() == 0 {
        Map::empty()
    } else {
        defs_map(s.drop_last()).insert(s.last().0@, s.last().1@)
    }
}

/// No variable is defined twice.
pub open spec fn defs_distinct(s: Seq<(Var, Polynomial)>) -> bool {
    forall|i: int, j: int| 0 <= i < j < s.len() ==> s[i].0@ != s[j].0@
}

/// The map from node to variable spelled by a list of variables, later
/// entries overriding earlier ones with the same node.
pub open spec fn ns_map(s: Seq<Var>) -> Map<Ref, VarV>
    decreases s.len(),
{
    if s.len() == 0 {
        Map::empty()
    } else {
        ns_map(s.drop_last()).insert(s.last().reference, s.last()@)
    }
}

/// No node is named twice.
pub open spec fn ns_distinct(s: Seq<Var>) -> bool {
    forall|i: int, j: int| 0 <= i < j < s.len() ==> s[i].reference != s[j].reference
}

proof fn lemma_defs_update(s: Seq<(Var, Polynomial)>, i: int, e: (Var, Polynomial))
    requires
        defs_distinct(s),
        0 <= i < s.len(),
        s[i].0@ == e.0@,
    ensures
        defs_map(s.update(i, e)) == defs_map(s).insert(e.0@, e.1@),
        defs_distinct(s.update(i, e)),
    decreases s.len(),
{
    let t = s.update(i, e);
    if i == s.len() - 1 {
        assert(t.drop_last() =~= s.drop_last());
        assert(defs_map(s).insert(e.0@, e.1@) =~= defs_map(s.drop_last()).insert(e.0@, e.1@));
    } else {
        lemma_defs_update(s.drop_last(), i, e);
        assert(t.drop_last() =~= s.drop_last().update(i, e));
        assert(t.last() == s.last());
        assert(s.last().0@ != e.0@);
        assert(defs_map(t) =~= defs_map(s).insert(e.0@, e.1@));
    }
}

pub proof fn lemma_defs_absent(s: Seq<(Var, Polynomial)>, k: VarV)
    requires
        forall|i: int| 0 <= i < s.len() ==> s[i].0@ != k,
    ensures
        !defs_map(s).contains_key(k),
    decreases s.len(),
{
    if s.len() > 0 {
        lemma_defs_absent(s.drop_last(), k);
    }
}

proof fn lemma_defs_push(s: Seq<(Var, Polynomial)>, e: (Var, Polynomial))
    ensures
        defs_map(s.push(e)) == defs_map(s).insert(e.0@, e.1@),
{
    assert(s.push(e).drop_last() =~= s);
}

proof fn lemma_ns_update(s: Seq<Var>, i: int, v: Var)
    requires
        ns_distinct(s),
        0 <= i < s.len(),
        s[i].reference == v.reference,
    ensures
        ns_map(s.update(i, v)) == ns_map(s).insert(v.reference, v@),
        ns_distinct(s.update(i, v)),
    decreases s.len(),
{
    let t = s.update(i, v);
    if i == s.len() - 1 {
        assert(t.drop_last() =~= s.drop_last());
        assert(ns_map(s).insert(v.reference, v@) =~= ns_map(s.drop_last()).insert(v.reference, v@));
    } else {
        lemma_ns_update(s.drop_last(), i, v);
        assert(t.drop_last() =~= s.drop_last().update(i, v));
        assert(t.last() == s.last());
        assert(ns_map(t) =~= ns_map(s).insert(v.reference, v@));
    }
}

proof fn lemma_ns_absent(s: Seq<Var>, r: Ref)
    requires
        forall|i: int| 0 <= i < s.len() ==> s[i].reference != r,
    ensures
        !ns_map(s).contains_key(r),
    decreases s.len(),
{
    if s.len() > 0 {
        lemma_ns_absent(s.drop_last(), r);
    }
}

proof fn lemma_ns_get(s: Seq<Var>, i: int)
    requires
        ns_distinct(s),
        0 <= i < s.len(),
    ensures
        ns_map(s).contains_key(s[i].reference),
        ns_map(s)[s[i].reference] == s[i]@,
    decreases s.len(),
{
    if i < s.len() - 1 {
        lemma_ns_get(s.drop_last(), i);
    }
}

proof fn lemma_ns_push(s: Seq<Var>, v: Var)
    ensures
        ns_map(s.push(v)) == ns_map(s).insert(v.reference, v@),
{
    assert(s.push(v).drop_last() =~= s);
}

/// The generators, definitions and namespace of one ideal.
#[derive(Debug)]
pub struct Ideal {
    /// Polynomials constrained to vanish on honest executions.
    pub generating_set: Vec<Polynomial>,
    /// Definitional equations `var = poly`, kept out of the generators so
    /// they can be substituted away.
    pub pl: Vec<(Var, Polynomial)>,
    /// The variable standing for each graph node's value.
    pub vars: Vec<Var>,
    /// Variables in the order they were introduced.
    pub var_order: Vec<Var>,
}

impl Ideal {
    /// Definitions and namespace are keyed without repetition.
    pub open spec fn wf(&self) -> bool {
        defs_distinct(self.pl@) && ns_distinct(self.vars@)
    }

    /// The generators.
    pub open spec fn gens(&self) -> Seq<PolyV> {
        pviews(self.generating_set@)
    }

    /// The definitions, as a map.
    pub open spec fn defs(&self) -> Map<VarV, PolyV> {
        defs_map(self.pl@)
    }

    /// The namespace, as a map.
    pub open spec fn names(&self) -> Map<Ref, VarV> {
        ns_map(self.vars@)
    }

    /// An empty ideal: no generators, no definitions, empty namespace.
    pub fn new() -> (r: Ideal)
        ensures
            r.wf(),
            r.gens() == Seq::<PolyV>::empty(),
            r.defs() == Map::<VarV, PolyV>::empty(),
            r.names() == Map::<Ref, VarV>::empty(),
            r.var_order@ == Seq::<Var>::empty(),
    {
        let r = Ideal { generating_set: Vec::new(), pl: Vec::new(), vars: Vec::new(), var_order: Vec::new() };
        assert(r.gens() =~= Seq::<PolyV>::empty());
        r
    }

    /// Name `var` as the variable of its node, replacing any earlier entry
    /// for that node, which is returned.
    pub fn register(&mut self, var: &Var) -> (r: Option<Var>)
        requires
            old(self).wf(),
        ensures
            final(self).wf(),
            final(self).names() == old(self).names().insert(var.reference, var@),
            r is Some <==> old(self).names().contains_key(var.reference),
            r matches Some(p) ==> p@ == old(self).names()[var.reference],
            final(self).generating_set == old(self).generating_set,
            final(self).pl == old(self).pl,
            final(self).var_order == old(self).var_order,
    {
        let mut i: usize = 0;
        while i < self.vars.len()
            invariant
                i <= self.vars@.len(),
                *self == *old(self),
                self.wf(),
                forall|j: int| 0 <= j < i ==> self.vars@[j].reference != var.reference,
            decreases self.vars@.len() - i,
        {
            if self.vars[i].reference.node() == var.reference.node() {
                let prev = self.vars[i].clone();
                proof {
                    lemma_ns_get(self.vars@, i as int);
                }
                let ghost before = self.vars@;
                self.vars.set(i, var.clone());
                proof {
                    lemma_ns_update(before, i as int, self.vars@[i as int]);
                }
                return Some(prev);
            }
            i = i + 1;
        }
        proof {
            lemma_ns_absent(self.vars@, var.reference);
        }
        let ghost before = self.vars@;
        self.vars.push(var.clone());
        proof {
            lemma_ns_push(before, self.vars@.last());
            assert(self.vars@.drop_last() =~= before);
        }
        None
    }

    /// The variable of node `r`.
    pub fn find_ref(&self, r: Ref) -> (v: Var)
        requires
            self.wf(),
            self.names().contains_key(r),
        ensures
            v@ == self.names()[r],
    {
        let mut i: usize = 0;
        while i < self.vars.len()
            invariant
                i <= self.vars@.len(),
                self.wf(),
                self.names().contains_key(r),
                forall|j: int| 0 <= j < i ==> self.vars@[j].reference != r,
            decreases self.vars@.len() - i,
        {
            if self.vars[i].reference.node() == r.node() {
                proof {
                    lemma_ns_get(self.vars@, i as int);
                }
                return self.vars[i].clone();
            }
            i = i + 1;
        }
        proof {
            lemma_ns_absent(self.vars@, r);
        }
        self.vars[0].clone()
    }

    /// The definition of `k`, if any.
    pub fn pl_get(&self, k: &Var) -> (r: Option<Polynomial>)
        requires
            self.wf(),
        ensures
            r is Some <==> self.defs().contains_key(k@),
            r matches Some(p) ==> p@ == self.defs()[k@],
    {
        let mut i: usize = 0;
        while i < self.pl.len()
            invariant
                i <= self.pl@.len(),
                self.wf(),
                forall|j: int| 0 <= j < i ==> self.pl@[j].0@ != k@,
            decreases self.pl@.len() - i,
        {
            if self.pl[i].0.same(k) {
                proof {
                    lemma_defs_get(self.pl@, i as int);
                }
                return Some(self.pl[i].1.clone());
            }
            i = i + 1;
        }
        proof {
            lemma_defs_absent(self.pl@, k@);
        }
        None
    }

    /// Define `k` as `v`, replacing an earlier definition of `k`.
    pub fn pl_insert(&mut self, k: &Var, v: &Polynomial)
        requires
            old(self).wf(),
        ensures
            final(self).wf(),
            final(self).defs() == old(self).defs().insert(k@, v@),
            final(self).generating_set == old(self).generating_set,
            final(self).vars == old(self).vars,
            final(self).var_order == old(self).var_order,
    {
        let mut i: usize = 0;
        while i < self.pl.len()
            invariant
                i <= self.pl@.len(),
                *self == *old(self),
                self.wf(),
                forall|j: int| 0 <= j < i ==> self.pl@[j].0@ != k@,
            decreases self.pl@.len() - i,
        {
            if self.pl[i].0.same(k) {
                let ghost before = self.pl@;
                self.pl.set(i, (k.clone(), v.clone()));
                proof {
                    lemma_defs_update(before, i as int, self.pl@[i as int]);
                }
                return;
            }
            i = i + 1;
        }
        let ghost before = self.pl@;
        self.pl.push((k.clone(), v.clone()));
        proof {
            lemma_defs_push(before, self.pl@.last());
            assert(self.pl@.drop_last() =~= before);
        }
    }
}


/// The variables occurring in a list of polynomials.
pub open spec fn gen_vars(gs: Seq<PolyV>) -> Set<VarV>
    decreases gs.len(),
{
    if gs.len() == 0 {
        Set::empty()
    } else {
        gen_vars(gs.drop_last()) + poly_vars(gs.last())
    }
}

/// The defined variables of a list of definitions.
pub open spec fn def_keys(s: Seq<(Var, Polynomial)>) -> Seq<VarV> {
    s.map_values(|e: (Var, Polynomial)| e.0@)
}

pub proof fn lemma_defs_dom(s: Seq<(Var, Polynomial)>)
    ensures
        defs_map(s).dom() == def_keys(s).to_set(),
    decreases s.len(),
{
    if s.len() > 0 {
        lemma_defs_dom(s.drop_last());
        let a = def_keys(s.drop_last());
        assert(def_keys(s) =~= a.push(s.last().0@));
        assert forall|x: VarV| def_keys(s).to_set().contains(x) <==> a.to_set().insert(s.last().0@).contains(x) by {
            if def_keys(s).contains(x) {
                let i = choose|i: int| 0 <= i < def_keys(s).len() && def_keys(s)[i] == x;
                if i < a.len() {
                    assert(a[i] == x);
                }
            }
            if a.contains(x) {
                let i = choose|i: int| 0 <= i < a.len() && a[i] == x;
                assert(def_keys(s)[i] == x);
            }
            if x == s.last().0@ {
                assert(def_keys(s)[s.len() - 1] == x);
            }
        }
        assert(def_keys(s).to_set() =~= a.to_set().insert(s.last().0@));
    } else {
        assert(def_keys(s).to_set() =~= Set::<VarV>::empty());
    }
}

impl Ideal {
    /// Every variable of the ideal: the defined variables together with
    /// those occurring in a generator, each once.
    pub fn vars(&self) -> (r: Vec<Var>)
        requires
            self.wf(),
        ensures
            views(r@).to_set() == self.defs().dom() + gen_vars(self.gens()),
            forall|i: int, j: int| 0 <= i < j < r@.len() ==> r@[i]@ != r@[j]@,
    {
        let mut out: Vec<Var> = Vec::new();
        let mut i: usize = 0;
        while i < self.pl.len()
            invariant
                i <= self.pl@.len(),
                self.wf(),
                out@.len() == i,
                forall|t: int| 0 <= t < i ==> #[trigger] out@[t]@ == self.pl@[t].0@,
            decreases self.pl@.len() - i,
        {
            out.push(self.pl[i].0.clone());
            i = i + 1;
        }
        proof {
            lemma_defs_dom(self.pl@);
            assert(views(out@) =~= def_keys(self.pl@));
        }
        let mut g: usize = 0;
        while g < self.generating_set.len()
            invariant
                g <= self.generating_set@.len(),
                views(out@).to_set() == self.defs().dom() + gen_vars(self.gens().subrange(0, g as int)),
                forall|a: int, b: int| 0 <= a < b < out@.len() ==> out@[a]@ != out@[b]@,
            decreases self.generating_set@.len() - g,
        {
            self.generating_set[g].collect_vars(&mut out);
            proof {
                let gs = self.gens();
                assert(gs.subrange(0, g + 1).drop_last() =~= gs.subrange(0, g as int));
                assert(gs.subrange(0, g + 1).last() == self.generating_set@[g as int]@);
                assert(views(out@).to_set() =~= self.defs().dom() + gen_vars(gs.subrange(0, g + 1)));
            }
            g = g + 1;
        }
        assert(self.gens().subrange(0, self.generating_set@.len() as int) =~= self.gens());
        out
    }

    /// Take over the generators, definitions and introduced variables of
    /// `other`; its definitions replace ours for the same variable, while our
    /// namespace entries stay where both name a node.
    pub fn merge(&mut self, other: &Ideal)
        requires
            old(self).wf(),
            other.wf(),
        ensures
            final(self).wf(),
            final(self).gens() == old(self).gens() + other.gens(),
            final(self).defs() == old(self).defs().union_prefer_right(other.defs()),
            final(self).names() == other.names().union_prefer_right(old(self).names()),
            views(final(self).var_order@) == views(old(self).var_order@) + views(other.var_order@),
    {
        let ghost g0 = self.gens();
        let ghost d0 = self.defs();
        let ghost n0 = self.names();
        let ghost o0 = views(self.var_order@);
        let mut i: usize = 0;
        while i < other.generating_set.len()
            invariant
                i <= other.generating_set@.len(),
                self.wf(),
                self.defs() == d0,
                self.names() == n0,
                views(self.var_order@) == o0,
                self.gens() == g0 + other.gens().subrange(0, i as int),
            decreases other.generating_set@.len() - i,
        {
            let ghost before = self.generating_set@;
            self.generating_set.push(other.generating_set[i].clone());
            proof {
                assert(self.generating_set@ == before.push(self.generating_set@.last()));
                assert(pviews(self.generating_set@) =~= pviews(before).push(other.gens()[i as int]));
            }
            i = i + 1;
            assert(self.gens() =~= g0 + other.gens().subrange(0, i as int));
        }
        assert(other.gens().subrange(0, other.generating_set@.len() as int) =~= other.gens());
        let mut j: usize = 0;
        while j < other.pl.len()
            invariant
                j <= other.pl@.len(),
                other.wf(),
                self.wf(),
                self.gens() == g0 + other.gens(),
                self.names() == n0,
                views(self.var_order@) == o0,
                self.defs() == d0.union_prefer_right(defs_map(other.pl@.subrange(0, j as int))),
            decreases other.pl@.len() - j,
        {
            self.pl_insert(&other.pl[j].0, &other.pl[j].1);
            proof {
                let s = other.pl@.subrange(0, j + 1);
                assert(s.drop_last() =~= other.pl@.subrange(0, j as int));
                assert(self.defs() =~= d0.union_prefer_right(defs_map(s)));
            }
            j = j + 1;
        }
        assert(other.pl@.subrange(0, other.pl@.len() as int) =~= other.pl@);
        let mut t: usize = 0;
        while t < other.var_order.len()
            invariant
                t <= other.var_order@.len(),
                self.wf(),
                self.gens() == g0 + other.gens(),
                self.names() == n0,
                self.defs() == d0.union_prefer_right(other.defs()),
                views(self.var_order@) == o0 + views(other.var_order@.subrange(0, t as int)),
            decreases other.var_order@.len() - t,
        {
            let ghost before = self.var_order@;
            self.var_order.push(other.var_order[t].clone());
            proof {
                assert(views(self.var_order@) =~= views(before).push(other.var_order@[t as int]@));
                assert(views(other.var_order@.subrange(0, t + 1)) =~= views(other.var_order@.subrange(0, t as int)).push(other.var_order@[t as int]@));
            }
            t = t + 1;
            assert(views(self.var_order@) =~= o0 + views(other.var_order@.subrange(0, t as int)));
        }
        assert(other.var_order@.subrange(0, other.var_order@.len() as int) =~= other.var_order@);
        let mut k: usize = 0;
        while k < other.vars.len()
            invariant
                k <= other.vars@.len(),
                other.wf(),
                self.wf(),
                self.gens() == g0 + other.gens(),
                self.defs() == d0.union_prefer_right(other.defs()),
                views(self.var_order@) == o0 + views(other.var_order@),
                self.names() == ns_map(other.vars@.subrange(0, k as int)).union_prefer_right(n0),
            decreases other.vars@.len() - k,
        {
            let v = &other.vars[k];
            let mut found = false;
            let mut q: usize = 0;
            while q < self.vars.len()
                invariant_except_break
                    q <= self.vars@.len(),
                    self.wf(),
                    !found,
                    forall|a: int| 0 <= a < q ==> self.vars@[a].reference != v.reference,
                ensures
                    found ==> ns_map(self.vars@).contains_key(v.reference),
                    !found ==> forall|a: int| 0 <= a < self.vars@.len() ==> self.vars@[a].reference != v.reference,
                decreases self.vars@.len() - q,
            {
                if self.vars[q].reference.node() == v.reference.node() {
                    proof {
                        lemma_ns_get(self.vars@, q as int);
                    }
                    found = true;
                    break;
                }
                q = q + 1;
            }
            let ghost prefix = ns_map(other.vars@.subrange(0, k as int));
            proof {
                let s = other.vars@.subrange(0, k + 1);
                assert(s.drop_last() =~= other.vars@.subrange(0, k as int));
                assert(s.last() == *v);
                lemma_ns_absent(other.vars@.subrange(0, k as int), v.reference);
                assert(!prefix.contains_key(v.reference));
            }
            if !found {
                proof {
                    lemma_ns_absent(self.vars@, v.reference);
                }
                let ghost before = self.vars@;
                self.vars.push(v.clone());
                proof {
                    lemma_ns_push(before, self.vars@.last());
                    assert(self.vars@.drop_last() =~= before);
                    assert(self.names() =~= ns_map(other.vars@.subrange(0, k + 1)).union_prefer_right(n0));
                }
            } else {
                proof {
                    assert(self.names() =~= ns_map(other.vars@.subrange(0, k + 1)).union_prefer_right(n0));
                }
            }
            k = k + 1;
        }
        assert(other.vars@.subrange(0, other.vars@.len() as int) =~= other.vars@);
    }
}

pub proof fn lemma_defs_get(s: Seq<(Var, Polynomial)>, i: int)
    requires
        defs_distinct(s),
        0 <= i < s.len(),
    ensures
        defs_map(s).contains_key(s[i].0@),
        defs_map(s)[s[i].0@] == s[i].1@,
    decreases s.len(),
{
    if i < s.len() - 1 {
        lemma_defs_get(s.drop_last(), i);
    }
}

} // verus!

//! Dropping from an ideal the generators and definitions that involve
//! variables chosen by a caller's predicate.
use vstd::prelude::*;

use crate::formal::{decides_monomials, keeps_monomial, some_monomial_spared};
use crate::ideal::{defs_distinct, gen_vars, Ideal};
use crate::poly::Polynomial;
use crate::poly_source::pviews;
use crate::polyv::{poly_vars, PolyV};
use crate::var::{views, Var, VarV};

verus! {

/// The predicate may be called on every variable and answers by the
/// variable's content alone.
pub open spec fn decides_by_content<F: Fn(&Var) -> bool>(f: F) -> bool {
    &&& forall|v: &Var| #[trigger] call_requires(f, (v,))
    &&& forall|a: &Var, b: &Var, x: bool, y: bool|
        #![trigger call_ensures(f, (a,), x), call_ensures(f, (b,), y)]
        a@ == b@ && call_ensures(f, (a,), x) && call_ensures(f, (b,), y) ==> x == y
}

/// The predicate answers `true` on a variable with content `w`.
pub open spec fn selects<F: Fn(&Var) -> bool>(f: F, w: VarV) -> bool {
    exists|v: &Var| v@ == w && #[trigger] call_ensures(f, (v,), true)
}

/// A generator survives when the predicate selects none of its variables.
pub open spec fn spared<F: Fn(&Var) -> bool>(f: F, p: PolyV) -> bool {
    forall|w: VarV| #[trigger] poly_vars(p).contains(w) ==> !selects(f, w)
}

/// The content of a list of definitions.
pub open spec fn def_views(s: Seq<(Var, Polynomial)>) -> Seq<(VarV, PolyV)> {
    s.map_values(|e: (Var, Polynomial)| (e.0@, e.1@))
}

/// What one call of the predicate tells about the content of its argument.
proof fn lemma_answer<F: Fn(&Var) -> bool>(f: F, v: &Var, b: bool)
    requires
        decides_by_content(f),
        call_ensures(f, (v,), b),
    ensures
        b == selects(f, v@),
{
    if !b && selects(f, v@) {
        let u = choose|u: &Var| u@ == v@ && #[trigger] call_ensures(f, (u,), true);
        assert(call_ensures(f, (u,), true) && call_ensures(f, (v,), b));
    }
}

impl Ideal {
    /// Keep the generators whose marks are set, in order.
    fn retain_gens(&mut self, marks: &Vec<bool>, keep: Ghost<spec_fn(PolyV) -> bool>)
        requires
            marks@.len() == old(self).generating_set@.len(),
            forall|k: int| 0 <= k < marks@.len() ==> #[trigger] marks@[k] == keep@(old(self).generating_set@[k]@),
        ensures
            final(self).gens() == old(self).gens().filter(keep@),
            final(self).pl@ == old(self).pl@,
            final(self).vars@ == old(self).vars@,
            final(self).var_order@ == old(self).var_order@,
    {
        let ghost g0 = self.gens();
        let ghost pred = keep@;
        let mut gens: Vec<Polynomial> = Vec::new();
        let mut i: usize = 0;
        while i < self.generating_set.len()
            invariant
                i <= self.generating_set@.len(),
                g0 == self.gens(),
                pred == keep@,
                marks@.len() == self.generating_set@.len(),
                forall|k: int| 0 <= k < marks@.len() ==> #[trigger] marks@[k] == pred(self.generating_set@[k]@),
                pviews(gens@) == g0.subrange(0, i as int).filter(pred),
            decreases self.generating_set@.len() - i,
        {
            proof {
                assert(g0[i as int] == self.generating_set@[i as int]@);
                assert(marks@[i as int] == pred(g0[i as int]));
                assert(g0.subrange(0, i + 1).drop_last() =~= g0.subrange(0, i as int));
                assert(g0.subrange(0, i + 1).last() == g0[i as int]);
                reveal(Seq::filter);
            }
            let ghost before = gens@;
            if marks[i] {
                gens.push(self.generating_set[i].clone());
                proof {
                    assert(pviews(gens@) =~= pviews(before).push(g0[i as int]));
                }
            }
            i = i + 1;
        }
        assert(g0.subrange(0, self.generating_set@.len() as int) =~= g0);
        self.generating_set = gens;
    }

    /// Keep the definitions whose marks are set, in order.
    fn retain_defs(&mut self, marks: &Vec<bool>, keep: Ghost<spec_fn((VarV, PolyV)) -> bool>)
        requires
            old(self).wf(),
            marks@.len() == old(self).pl@.len(),
            forall|k: int| 0 <= k < marks@.len() ==> #[trigger] marks@[k] == keep@((old(self).pl@[k].0@, old(self).pl@[k].1@)),
        ensures
            final(self).wf(),
            def_views(final(self).pl@) == def_views(old(self).pl@).filter(keep@),
            final(self).generating_set@ == old(self).generating_set@,
            final(self).vars@ == old(self).vars@,
            final(self).var_order@ == old(self).var_order@,
    {
        let ghost d0 = self.pl@;
        let ghost drop = keep@;
        let mut pl: Vec<(Var, Polynomial)> = Vec::new();
        let mut k: usize = 0;
        while k < self.pl.len()
            invariant
                k <= self.pl@.len(),
                d0 == self.pl@,
                self.wf(),
                marks@.len() == d0.len(),
                drop == keep@,
                forall|t: int| 0 <= t < marks@.len() ==> #[trigger] marks@[t] == drop((d0[t].0@, d0[t].1@)),
                def_views(pl@) == def_views(d0.subrange(0, k as int)).filter(drop),
                forall|a: int| #![trigger pl@[a]] 0 <= a < pl@.len() ==> exists|t: int| 0 <= t < k && #[trigger] d0[t].0@ == pl@[a].0@,
                forall|a: int, b: int| 0 <= a < b < pl@.len() ==> pl@[a].0@ != pl@[b].0@,
            decreases self.pl@.len() - k,
        {
            proof {
                let dv = def_views(d0.subrange(0, k + 1));
                assert(dv.drop_last() =~= def_views(d0.subrange(0, k as int)));
                assert(dv.last() == (d0[k as int].0@, d0[k as int].1@));
                assert(marks@[k as int] == drop((d0[k as int].0@, d0[k as int].1@)));
                reveal(Seq::filter);
            }
            let ghost before = pl@;
            if marks[k] {
                let e = (self.pl[k].0.clone(), self.pl[k].1.clone());
                proof {
                    assert forall|a: int| 0 <= a < pl@.len() implies pl@[a].0@ != e.0@ by {
                        let t = choose|t: int| 0 <= t < k && #[trigger] d0[t].0@ == pl@[a].0@;
                        assert(d0[t].0@ != d0[k as int].0@);
                    }
                }
                pl.push(e);
                proof {
                    assert(def_views(pl@) =~= def_views(before).push((d0[k as int].0@, d0[k as int].1@)));
                    assert forall|a: int| #![trigger pl@[a]] 0 <= a < pl@.len() implies exists|t: int| 0 <= t < k + 1 && #[trigger] d0[t].0@ == pl@[a].0@ by {
                        if a == pl@.len() - 1 {
                            assert(d0[k as int].0@ == pl@[a].0@);
                        } else {
                            let t = choose|t: int| 0 <= t < k && #[trigger] d0[t].0@ == pl@[a].0@;
                            assert(d0[t].0@ == pl@[a].0@);
                        }
                    }
                }
            }
            k = k + 1;
        }
        assert(d0.subrange(0, self.pl@.len() as int) =~= d0);
        assert(defs_distinct(pl@));
        self.pl = pl;
    }

    /// Drop every generator that mentions a variable the predicate selects,
    /// and every definition of such a variable.
    pub fn eliminate_var<F: Fn(&Var) -> bool>(&mut self, f: &F)
        requires
            old(self).wf(),
            decides_by_content(*f),
        ensures
            final(self).wf(),
            final(self).gens() == old(self).gens().filter(|p: PolyV| spared(*f, p)),
            def_views(final(self).pl@) == def_views(old(self).pl@).filter(|e: (VarV, PolyV)| !selects(*f, e.0)),
            final(self).vars@ == old(self).vars@,
            final(self).var_order@ == old(self).var_order@,
    {
        let mut gmarks: Vec<bool> = Vec::new();
        let mut i: usize = 0;
        while i < self.generating_set.len()
            invariant
                i <= self.generating_set@.len(),
                decides_by_content(*f),
                gmarks@.len() == i,
                forall|t: int| 0 <= t < i ==> #[trigger] gmarks@[t] == spared(*f, self.generating_set@[t]@),
            decreases self.generating_set@.len() - i,
        {
            let vs = self.generating_set[i].vars();
            let mut spare = true;
            let mut j: usize = 0;
            while j < vs.len()
                invariant
                    j <= vs@.len(),
                    decides_by_content(*f),
                    spare <==> forall|t: int| 0 <= t < j ==> !selects(*f, #[trigger] vs@[t]@),
                decreases vs@.len() - j,
            {
                let b = f(&vs[j]);
                proof {
                    lemma_answer(*f, &vs@[j as int], b);
                }
                if b {
                    spare = false;
                }
                j = j + 1;
            }
            proof {
                let p = self.generating_set@[i as int]@;
                assert(spare == spared(*f, p)) by {
                    if spare {
                        assert forall|w: VarV| #[trigger] poly_vars(p).contains(w) implies !selects(*f, w) by {
                            assert(views(vs@).to_set().contains(w));
                            assert(views(vs@).contains(w));
                            let t = choose|t: int| 0 <= t < views(vs@).len() && views(vs@)[t] == w;
                            assert(vs@[t]@ == w);
                        }
                    } else {
                        let t = choose|t: int| 0 <= t < j && selects(*f, #[trigger] vs@[t]@);
                        assert(views(vs@)[t] == vs@[t]@);
                        assert(views(vs@).to_set().contains(vs@[t]@));
                        assert(poly_vars(p).contains(vs@[t]@));
                    }
                }
            }
            gmarks.push(spare);
            i = i + 1;
        }
        self.retain_gens(&gmarks, Ghost(|p: PolyV| spared(*f, p)));
        let mut marks: Vec<bool> = Vec::new();
        let mut k: usize = 0;
        while k < self.pl.len()
            invariant
                k <= self.pl@.len(),
                decides_by_content(*f),
                marks@.len() == k,
                forall|t: int| 0 <= t < k ==> #[trigger] marks@[t] == !selects(*f, self.pl@[t].0@),
            decreases self.pl@.len() - k,
        {
            let b = f(&self.pl[k].0);
            proof {
                lemma_answer(*f, &self.pl@[k as int].0, b);
            }
            marks.push(!b);
            k = k + 1;
        }
        self.retain_defs(&marks, Ghost(|e: (VarV, PolyV)| !selects(*f, e.0)));
    }

    /// Drop every generator all of whose monomials, once like terms are
    /// collected, the predicate selects; then keep only the definitions of
    /// variables that still occur in a generator.
    pub fn eliminate_monomial<F: Fn(&Vec<(Var, usize)>) -> bool>(&mut self, f: &F)
        requires
            old(self).wf(),
            decides_monomials(*f),
        ensures
            final(self).wf(),
            final(self).gens() == old(self).gens().filter(|p: PolyV| keeps_monomial(*f, p)),
            def_views(final(self).pl@) == def_views(old(self).pl@).filter(
                |e: (VarV, PolyV)| gen_vars(final(self).gens()).contains(e.0),
            ),
            final(self).vars@ == old(self).vars@,
            final(self).var_order@ == old(self).var_order@,
    {
        let mut gmarks: Vec<bool> = Vec::new();
        let mut i: usize = 0;
        while i < self.generating_set.len()
            invariant
                i <= self.generating_set@.len(),
                decides_monomials(*f),
                gmarks@.len() == i,
                forall|t: int| 0 <= t < i ==> #[trigger] gmarks@[t] == keeps_monomial(*f, self.generating_set@[t]@),
            decreases self.generating_set@.len() - i,
        {
            gmarks.push(some_monomial_spared(f, &self.generating_set[i]));
            i = i + 1;
        }
        self.retain_gens(&gmarks, Ghost(|p: PolyV| keeps_monomial(*f, p)));
        let ghost gs = self.gens();
        let mut seen: Vec<Var> = Vec::new();
        let mut g: usize = 0;
        while g < self.generating_set.len()
            invariant
                g <= self.generating_set@.len(),
                gs == self.gens(),
                views(seen@).to_set() == gen_vars(gs.subrange(0, g as int)),
                forall|a: int, b: int| 0 <= a < b < seen@.len() ==> seen@[a]@ != seen@[b]@,
            decreases self.generating_set@.len() - g,
        {
            self.generating_set[g].collect_vars(&mut seen);
            proof {
                assert(gs.subrange(0, g + 1).drop_last() =~= gs.subrange(0, g as int));
                assert(gs.subrange(0, g + 1).last() == self.generating_set@[g as int]@);
                assert(views(seen@).to_set() =~= gen_vars(gs.subrange(0, g + 1)));
            }
            g = g + 1;
        }
        assert(gs.subrange(0, self.generating_set@.len() as int) =~= gs);
        let mut marks: Vec<bool> = Vec::new();
        let mut k: usize = 0;
        while k < self.pl.len()
            invariant
                k <= self.pl@.len(),
                views(seen@).to_set() == gen_vars(gs),
                marks@.len() == k,
                forall|t: int| 0 <= t < k ==> #[trigger] marks@[t] == gen_vars(gs).contains(self.pl@[t].0@),
            decreases self.pl@.len() - k,
        {
            let mut found = false;
            let mut q: usize = 0;
            while q < seen.len()
                invariant
                    q <= seen@.len(),
                    k < self.pl@.len(),
                    found <==> exists|t: int| 0 <= t < q && #[trigger] seen@[t]@ == self.pl@[k as int].0@,
                decreases seen@.len() - q,
            {
                if seen[q].same(&self.pl[k].0) {
                    found = true;
                }
                q = q + 1;
            }
            proof {
                let w = self.pl@[k as int].0@;
                if found {
                    let t = choose|t: int| 0 <= t < q && #[trigger] seen@[t]@ == w;
                    assert(views(seen@)[t] == w);
                    assert(views(seen@).to_set().contains(w));
                } else if views(seen@).to_set().contains(w) {
                    let t = choose|t: int| 0 <= t < views(seen@).len() && views(seen@)[t] == w;
                    assert(seen@[t]@ == w);
                }
            }
            marks.push(found);
            k = k + 1;
        }
        self.retain_defs(&marks, Ghost(|e: (VarV, PolyV)| gen_vars(gs).contains(e.0)));
    }
}

} // verus!

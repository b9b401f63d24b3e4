//! Substituting the definitions of an ideal into its generators, and
//! dropping the generators that become zero.
use vstd::prelude::*;

use crate::field::modulus;
use crate::ideal::Ideal;
use crate::poly_source::pviews;
use crate::poly::Polynomial;
use crate::formal::{constancy, formally_zero, Constancy};
use crate::polyv::{eval, poly_vars, Env, PolyV};
use crate::var::{Ref, VarV};

verus! {

broadcast use {crate::field::lemma_val_lt, crate::polyv::lemma_eval_lt, vstd::seq_lib::lemma_seq_contains_after_push};

/// `p` with every variable that `d` defines replaced by its definition.
pub open spec fn subst(p: PolyV, d: Map<VarV, PolyV>) -> PolyV
    decreases p,
{
    match p {
        PolyV::Lit(c) => PolyV::Lit(c),
        PolyV::Var(v) => if d.contains_key(v) {
            d[v]
        } else {
            PolyV::Var(v)
        },
        PolyV::Add(a, b) => PolyV::Add(Box::new(subst(*a, d)), Box::new(subst(*b, d))),
        PolyV::Sub(a, b) => PolyV::Sub(Box::new(subst(*a, d)), Box::new(subst(*b, d))),
        PolyV::Mul(a, b) => PolyV::Mul(Box::new(subst(*a, d)), Box::new(subst(*b, d))),
        PolyV::Neg(a) => PolyV::Neg(Box::new(subst(*a, d))),
        PolyV::Pow(a, k) => PolyV::Pow(Box::new(subst(*a, d)), k),
    }
}

/// `env` satisfies every definition of `d`.
pub open spec fn consistent(d: Map<VarV, PolyV>, env: Env) -> bool {
    forall|v: VarV| #[trigger] d.contains_key(v) ==> eval(d[v], env) == env(v) % modulus()
}

/// Under an assignment that satisfies the definitions, substituting them
/// changes no value.
pub proof fn lemma_subst_eval(p: PolyV, d: Map<VarV, PolyV>, env: Env)
    requires
        consistent(d, env),
    ensures
        eval(subst(p, d), env) == eval(p, env),
    decreases p,
{
    match p {
        PolyV::Add(a, b) => {
            lemma_subst_eval(*a, d, env);
            lemma_subst_eval(*b, d, env);
        },
        PolyV::Sub(a, b) => {
            lemma_subst_eval(*a, d, env);
            lemma_subst_eval(*b, d, env);
        },
        PolyV::Mul(a, b) => {
            lemma_subst_eval(*a, d, env);
            lemma_subst_eval(*b, d, env);
        },
        PolyV::Neg(a) => lemma_subst_eval(*a, d, env),
        PolyV::Pow(a, _) => lemma_subst_eval(*a, d, env),
        _ => {},
    }
}

/// `g1` is `g0` with the generators at the positions outside `kept` left
/// out, and those at `kept` in order.
pub open spec fn kept_at(g0: Seq<PolyV>, g1: Seq<PolyV>, kept: Seq<int>) -> bool {
    &&& kept.len() == g1.len()
    &&& forall|a: int, b: int| 0 <= a < b < kept.len() ==> kept[a] < kept[b]
    &&& forall|a: int| 0 <= a < kept.len() ==> 0 <= #[trigger] kept[a] < g0.len()
}

/// `env` with each variable that `d` defines given its definition's value.
pub open spec fn subst_env(d: Map<VarV, PolyV>, env: Env) -> Env {
    |v: VarV| if d.contains_key(v) { eval(d[v], env) } else { env(v) }
}

/// Substituting definitions is evaluating under the assignment that gives
/// each defined variable its definition's value.
pub proof fn lemma_subst_env(p: PolyV, d: Map<VarV, PolyV>, env: Env)
    ensures
        eval(subst(p, d), env) == eval(p, subst_env(d, env)),
    decreases p,
{
    match p {
        PolyV::Add(a, b) | PolyV::Sub(a, b) | PolyV::Mul(a, b) => {
            lemma_subst_env(*a, d, env);
            lemma_subst_env(*b, d, env);
        },
        PolyV::Neg(a) | PolyV::Pow(a, _) => lemma_subst_env(*a, d, env),
        PolyV::Var(v) => {
            if d.contains_key(v) {
                crate::polyv::lemma_eval_lt(d[v], env);
                vstd::arithmetic::div_mod::lemma_small_mod(eval(d[v], env), modulus());
            }
        },
        PolyV::Lit(_) => {},
    }
}


/// `p` with the definitions of `d` substituted `n` times over.
pub open spec fn subst_n(p: PolyV, d: Map<VarV, PolyV>, n: nat) -> PolyV
    decreases n,
{
    if n == 0 {
        p
    } else {
        subst(subst_n(p, d, (n - 1) as nat), d)
    }
}

/// `p` mentions a variable that `d` defines.
pub open spec fn mentions_defined(p: PolyV, d: Map<VarV, PolyV>) -> bool {
    exists|v: VarV| #[trigger] poly_vars(p).contains(v) && d.contains_key(v)
}

/// The definitions can be ranked by numbers below `n` so that each
/// mentions only defined variables of lower rank: they have no cycle.
pub open spec fn acyclic(d: Map<VarV, PolyV>, n: nat) -> bool {
    exists|rank: spec_fn(VarV) -> nat| #[trigger] ranked(d, rank, n)
}

/// `rank` ranks the definitions of `d` below `n`, each mentioning only
/// defined variables of lower rank.
pub open spec fn ranked(d: Map<VarV, PolyV>, rank: spec_fn(VarV) -> nat, n: nat) -> bool {
    &&& forall|k: VarV| #[trigger] d.contains_key(k) ==> rank(k) < n
    &&& forall|k: VarV, v: VarV| d.contains_key(k) && #[trigger] poly_vars(d[k]).contains(v) && d.contains_key(v) ==> rank(v) < rank(k)
}

/// Every defined variable of `p` has rank below `b`.
pub open spec fn below_rank(p: PolyV, d: Map<VarV, PolyV>, rank: spec_fn(VarV) -> nat, b: nat) -> bool {
    forall|v: VarV| #[trigger] poly_vars(p).contains(v) && d.contains_key(v) ==> rank(v) < b
}

/// Substituting lowers the rank bound of the defined variables by one.
proof fn lemma_subst_rank(p: PolyV, d: Map<VarV, PolyV>, rank: spec_fn(VarV) -> nat, n: nat, b: nat)
    requires
        ranked(d, rank, n),
        below_rank(p, d, rank, b + 1),
    ensures
        below_rank(subst(p, d), d, rank, b),
    decreases p,
{
    match p {
        PolyV::Add(x, y) | PolyV::Sub(x, y) | PolyV::Mul(x, y) => {
            assert(below_rank(*x, d, rank, b + 1)) by {
                assert forall|v: VarV| #[trigger] poly_vars(*x).contains(v) && d.contains_key(v) implies rank(v) < b + 1 by {
                    assert(poly_vars(p).contains(v));
                }
            }
            assert(below_rank(*y, d, rank, b + 1)) by {
                assert forall|v: VarV| #[trigger] poly_vars(*y).contains(v) && d.contains_key(v) implies rank(v) < b + 1 by {
                    assert(poly_vars(p).contains(v));
                }
            }
            lemma_subst_rank(*x, d, rank, n, b);
            lemma_subst_rank(*y, d, rank, n, b);
            assert forall|v: VarV| #[trigger] poly_vars(subst(p, d)).contains(v) && d.contains_key(v) implies rank(v) < b by {
                if poly_vars(subst(*x, d)).contains(v) {
                } else {
                    assert(poly_vars(subst(*y, d)).contains(v));
                }
            }
        },
        PolyV::Neg(x) | PolyV::Pow(x, _) => {
            assert(below_rank(*x, d, rank, b + 1)) by {
                assert forall|v: VarV| #[trigger] poly_vars(*x).contains(v) && d.contains_key(v) implies rank(v) < b + 1 by {
                    assert(poly_vars(p).contains(v));
                }
            }
            lemma_subst_rank(*x, d, rank, n, b);
            assert forall|v: VarV| #[trigger] poly_vars(subst(p, d)).contains(v) && d.contains_key(v) implies rank(v) < b by {
                assert(poly_vars(subst(*x, d)).contains(v));
            }
        },
        PolyV::Var(w) => {
            if d.contains_key(w) {
                assert(poly_vars(p).contains(w));
                assert forall|v: VarV| #[trigger] poly_vars(subst(p, d)).contains(v) && d.contains_key(v) implies rank(v) < b by {
                    assert(poly_vars(d[w]).contains(v));
                }
            }
        },
        PolyV::Lit(_) => {},
    }
}

/// Substitution leaves alone what mentions no defined variable.
proof fn lemma_subst_fixed(p: PolyV, d: Map<VarV, PolyV>)
    requires
        !mentions_defined(p, d),
    ensures
        subst(p, d) == p,
    decreases p,
{
    match p {
        PolyV::Add(x, y) | PolyV::Sub(x, y) | PolyV::Mul(x, y) => {
            assert(!mentions_defined(*x, d)) by {
                if mentions_defined(*x, d) {
                    let v = choose|v: VarV| #[trigger] poly_vars(*x).contains(v) && d.contains_key(v);
                    assert(poly_vars(p).contains(v));
                }
            }
            assert(!mentions_defined(*y, d)) by {
                if mentions_defined(*y, d) {
                    let v = choose|v: VarV| #[trigger] poly_vars(*y).contains(v) && d.contains_key(v);
                    assert(poly_vars(p).contains(v));
                }
            }
            lemma_subst_fixed(*x, d);
            lemma_subst_fixed(*y, d);
        },
        PolyV::Neg(x) | PolyV::Pow(x, _) => {
            assert(!mentions_defined(*x, d)) by {
                if mentions_defined(*x, d) {
                    let v = choose|v: VarV| #[trigger] poly_vars(*x).contains(v) && d.contains_key(v);
                    assert(poly_vars(p).contains(v));
                }
            }
            lemma_subst_fixed(*x, d);
        },
        PolyV::Var(w) => {
            assert(poly_vars(p).contains(w));
        },
        PolyV::Lit(_) => {},
    }
}

/// Once no defined variable is left, further rounds change nothing.
proof fn lemma_subst_n_stable(p: PolyV, d: Map<VarV, PolyV>, t: nat, m: nat)
    requires
        t <= m,
        !mentions_defined(subst_n(p, d, t), d),
    ensures
        subst_n(p, d, m) == subst_n(p, d, t),
    decreases m - t,
{
    if t < m {
        lemma_subst_n_stable(p, d, t, (m - 1) as nat);
        lemma_subst_fixed(subst_n(p, d, t), d);
    }
}

/// Law: with definitions ranked below `n`, substituting them `n` times
/// over leaves no defined variable.
pub proof fn lemma_subst_n_resolves(p: PolyV, d: Map<VarV, PolyV>, n: nat)
    requires
        acyclic(d, n),
    ensures
        !mentions_defined(subst_n(p, d, n), d),
{
    let rank = choose|rank: spec_fn(VarV) -> nat| #[trigger] ranked(d, rank, n);
    lemma_subst_n_below(p, d, rank, n, n);
    assert(below_rank(subst_n(p, d, n), d, rank, 0));
    if mentions_defined(subst_n(p, d, n), d) {
        let v = choose|v: VarV| #[trigger] poly_vars(subst_n(p, d, n)).contains(v) && d.contains_key(v);
        assert(rank(v) < 0);
    }
}

proof fn lemma_subst_n_below(p: PolyV, d: Map<VarV, PolyV>, rank: spec_fn(VarV) -> nat, n: nat, t: nat)
    requires
        ranked(d, rank, n),
        t <= n,
    ensures
        below_rank(subst_n(p, d, t), d, rank, (n - t) as nat),
    decreases t,
{
    if t > 0 {
        lemma_subst_n_below(p, d, rank, n, (t - 1) as nat);
        lemma_subst_rank(subst_n(p, d, (t - 1) as nat), d, rank, n, (n - t) as nat);
    } else {
        assert forall|v: VarV| #[trigger] poly_vars(p).contains(v) && d.contains_key(v) implies rank(v) < n by {
            assert(d.contains_key(v));
        }
    }
}

/// `p` with every variable that `ideal` defines replaced by its
/// definition, as it stands, and whether `p` mentions such a variable.
pub fn subst_defs(p: &Polynomial, ideal: &Ideal) -> (r: (Polynomial, bool))
    requires
        ideal.wf(),
    ensures
        r.0@ == subst(p@, ideal.defs()),
        r.1 == mentions_defined(p@, ideal.defs()),
    decreases p,
{
    let ghost d = ideal.defs();
    match p {
        Polynomial::Lit(c) => (Polynomial::Lit(*c), false),
        Polynomial::Var(v) => match ideal.pl_get(v) {
            Some(q) => {
                proof {
                    assert(poly_vars(p@).contains(v@));
                }
                (q, true)
            },
            None => (Polynomial::Var(v.clone()), false),
        },
        Polynomial::Add(a, b) | Polynomial::Sub(a, b) | Polynomial::Mul(a, b) => {
            let (x, y): (&Polynomial, &Polynomial) = (a, b);
            let (sx, cx) = subst_defs(x, ideal);
            let (sy, cy) = subst_defs(y, ideal);
            proof {
                lemma_mentions_pair(p@, x@, y@, d);
            }
            let q = match p {
                Polynomial::Add(_, _) => Polynomial::Add(Box::new(sx), Box::new(sy)),
                Polynomial::Sub(_, _) => Polynomial::Sub(Box::new(sx), Box::new(sy)),
                _ => Polynomial::Mul(Box::new(sx), Box::new(sy)),
            };
            (q, cx || cy)
        },
        Polynomial::Neg(a) => {
            let x: &Polynomial = a;
            let (sx, cx) = subst_defs(x, ideal);
            proof {
                assert(poly_vars(p@) == poly_vars(x@));
            }
            (Polynomial::Neg(Box::new(sx)), cx)
        },
        Polynomial::Pow(a, k) => {
            let x: &Polynomial = a;
            let (sx, cx) = subst_defs(x, ideal);
            proof {
                assert(poly_vars(p@) == poly_vars(x@));
            }
            (Polynomial::Pow(Box::new(sx), *k), cx)
        },
    }
}

proof fn lemma_mentions_pair(p: PolyV, x: PolyV, y: PolyV, d: Map<VarV, PolyV>)
    requires
        poly_vars(p) == poly_vars(x) + poly_vars(y),
    ensures
        mentions_defined(p, d) == (mentions_defined(x, d) || mentions_defined(y, d)),
{
    if mentions_defined(p, d) {
        let v = choose|v: VarV| #[trigger] poly_vars(p).contains(v) && d.contains_key(v);
        if poly_vars(x).contains(v) {
            assert(mentions_defined(x, d));
        } else {
            assert(mentions_defined(y, d));
        }
    }
    if mentions_defined(x, d) {
        let v = choose|v: VarV| #[trigger] poly_vars(x).contains(v) && d.contains_key(v);
        assert(poly_vars(p).contains(v));
    }
    if mentions_defined(y, d) {
        let v = choose|v: VarV| #[trigger] poly_vars(y).contains(v) && d.contains_key(v);
        assert(poly_vars(p).contains(v));
    }
}

impl Ideal {
    /// Substitute the definitions into every generator once; whether some
    /// generator mentioned a defined variable.
    fn subst_gens(&mut self) -> (changed: bool)
        requires
            old(self).wf(),
        ensures
            final(self).wf(),
            final(self).gens().len() == old(self).gens().len(),
            forall|j: int| 0 <= j < final(self).gens().len() ==> #[trigger] final(self).gens()[j] == subst(old(self).gens()[j], old(self).defs()),
            !changed ==> forall|j: int| 0 <= j < old(self).gens().len() ==> !mentions_defined(#[trigger] old(self).gens()[j], old(self).defs()),
            final(self).pl == old(self).pl,
            final(self).vars == old(self).vars,
            final(self).var_order == old(self).var_order,
    {
        let ghost g0 = self.gens();
        let ghost d = self.defs();
        let mut changed = false;
        let mut i: usize = 0;
        while i < self.generating_set.len()
            invariant
                i <= self.generating_set@.len(),
                self.wf(),
                g0 == old(self).gens(),
                d == old(self).defs(),
                self.defs() == d,
                self.gens().len() == g0.len(),
                forall|j: int| 0 <= j < i ==> #[trigger] self.gens()[j] == subst(g0[j], d),
                forall|j: int| i <= j < g0.len() ==> #[trigger] self.gens()[j] == g0[j],
                !changed ==> forall|j: int| 0 <= j < i ==> !mentions_defined(#[trigger] g0[j], d),
                self.pl == old(self).pl,
                self.vars == old(self).vars,
                self.var_order == old(self).var_order,
            decreases self.generating_set@.len() - i,
        {
            let (ng, c) = subst_defs(&self.generating_set[i], self);
            let ghost bv = self.generating_set@;
            proof {
                assert(pviews(bv)[i as int] == g0[i as int]);
            }
            self.generating_set.set(i, ng);
            changed = changed || c;
            proof {
                assert forall|j: int| 0 <= j < i + 1 implies #[trigger] self.gens()[j] == subst(g0[j], d) by {
                    if j < i {
                        assert(self.gens()[j] == pviews(bv)[j]);
                    }
                }
                assert forall|j: int| i + 1 <= j < g0.len() implies #[trigger] self.gens()[j] == g0[j] by {
                    assert(self.gens()[j] == pviews(bv)[j]);
                }
            }
            i = i + 1;
        }
        changed
    }
}

impl Ideal {
    /// Drop every generator that is, in canonical form, zero.
    fn drop_zero_gens(&mut self)
        requires
            old(self).wf(),
        ensures
            final(self).wf(),
            exists|kept: Seq<int>| {
                &&& kept_at(old(self).gens(), final(self).gens(), kept)
                &&& forall|a: int| 0 <= a < kept.len() ==> #[trigger] final(self).gens()[a] == old(self).gens()[kept[a]]
                &&& forall|i: int| 0 <= i < old(self).gens().len() && !kept.contains(i) ==> formally_zero(#[trigger] old(self).gens()[i])
            },
            forall|a: int| 0 <= a < final(self).gens().len() ==> !formally_zero(#[trigger] final(self).gens()[a]),
            final(self).pl == old(self).pl,
            final(self).vars == old(self).vars,
            final(self).var_order == old(self).var_order,
    {
        let ghost g0 = self.gens();
        let mut out: Vec<Polynomial> = Vec::new();
        let ghost mut kept: Seq<int> = Seq::empty();
        let mut i: usize = 0;
        while i < self.generating_set.len()
            invariant
                i <= self.generating_set@.len(),
                g0 == self.gens(),
                kept_at(g0, pviews(out@), kept),
                forall|a: int| 0 <= a < kept.len() ==> #[trigger] kept[a] < i,
                forall|a: int| 0 <= a < kept.len() ==> #[trigger] pviews(out@)[a] == g0[kept[a]],
                forall|t: int| 0 <= t < i && !kept.contains(t) ==> formally_zero(#[trigger] g0[t]),
                forall|a: int| 0 <= a < out@.len() ==> !formally_zero(#[trigger] out@[a]@),
            decreases self.generating_set@.len() - i,
        {
            let zero = match constancy(&self.generating_set[i]) {
                Constancy::Constant(c) => c.is_zero(),
                _ => false,
            };
            proof {
                assert(g0[i as int] == self.generating_set@[i as int]@);
            }
            if !zero {
                let ghost kb = kept;
                let ghost ob = out@;
                out.push(self.generating_set[i].clone());
                proof {
                    assert(pviews(out@) =~= pviews(ob).push(g0[i as int]));
                    kept = kept.push(i as int);
                    assert forall|t: int| 0 <= t < i + 1 && !kept.contains(t) implies formally_zero(#[trigger] g0[t]) by {
                        assert(kept[kb.len() as int] == i);
                        if t < i {
                            if kb.contains(t) {
                                let a = choose|a: int| 0 <= a < kb.len() && kb[a] == t;
                                assert(kept[a] == t);
                            }
                        }
                    }
                    assert forall|a: int| 0 <= a < kept.len() implies #[trigger] pviews(out@)[a] == g0[kept[a]] by {
                        if a < kb.len() {
                            assert(kept[a] == kb[a]);
                        }
                    }
                }
            } else {
                proof {
                    assert forall|t: int| 0 <= t < i + 1 && !kept.contains(t) implies formally_zero(#[trigger] g0[t]) by {
                    }
                }
            }
            i = i + 1;
        }
        self.generating_set = out;
        proof {
            assert(forall|a: int| 0 <= a < self.gens().len() ==> #[trigger] self.gens()[a] == g0[kept[a]]);
        }
    }
}



/// Inlining took `i0` to `i1`: the namespace and introduction order stay;
/// no definition is left; the generators are the initial ones with the
/// initial definitions substituted as many times over as there are
/// definitions, those that are zero in canonical form left out and the others kept in
/// order; and, where the definitions have no cycle, no generator mentions
/// a defined variable.
pub open spec fn inline_done(i0: Ideal, i1: Ideal) -> bool {
    let n = i0.pl@.len();
    let d = i0.defs();
    &&& i1.wf()
    &&& i1.names() == i0.names()
    &&& i1.var_order == i0.var_order
    &&& i1.pl@.len() == 0
    &&& i1.defs() == Map::<VarV, PolyV>::empty()
    &&& exists|kept: Seq<int>| {
        &&& kept_at(i0.gens(), i1.gens(), kept)
        &&& forall|a: int| 0 <= a < kept.len() ==> #[trigger] i1.gens()[a] == subst_n(i0.gens()[kept[a]], d, n)
        &&& forall|i: int| 0 <= i < i0.gens().len() && !kept.contains(i) ==> formally_zero(#[trigger] subst_n(i0.gens()[i], d, n))
    }
    &&& forall|a: int| 0 <= a < i1.gens().len() ==> !formally_zero(#[trigger] i1.gens()[a])
    &&& acyclic(d, n) ==> forall|a: int| 0 <= a < i1.gens().len() ==> !mentions_defined(#[trigger] i1.gens()[a], d)
}

impl Ideal {
    /// Substitute all the definitions into the generators, over and over
    /// until none is mentioned (at most as many rounds as there are
    /// definitions), drop the generators that become zero, and clear the
    /// definitions; an ideal without definitions is left as it is. The
    /// definitions of transcript nodes are substituted like the others.
    pub fn inline(&mut self, transcript: &Vec<Ref>)
        requires
            old(self).wf(),
        ensures
            old(self).pl@.len() == 0 ==> *final(self) == *old(self),
            old(self).pl@.len() > 0 ==> inline_done(*old(self), *final(self)),
    {
        let ghost i0 = *self;
        let ghost d0 = self.defs();
        let ghost g0 = self.gens();
        let n = self.pl.len();
        if n == 0 {
            return;
        }
        let mut t: usize = 0;
        let mut done = false;
        while t < n && !done
            invariant
                t <= n,
                n == i0.pl@.len(),
                self.wf(),
                self.defs() == d0,
                self.pl == i0.pl,
                self.vars == i0.vars,
                self.var_order == i0.var_order,
                self.gens().len() == g0.len(),
                forall|j: int| 0 <= j < g0.len() ==> #[trigger] self.gens()[j] == subst_n(g0[j], d0, t as nat),
                done ==> forall|j: int| 0 <= j < g0.len() ==> !mentions_defined(#[trigger] subst_n(g0[j], d0, t as nat), d0),
            decreases n - t,
        {
            let ghost gb = self.gens();
            let changed = self.subst_gens();
            proof {
                assert forall|j: int| 0 <= j < g0.len() implies #[trigger] self.gens()[j] == subst_n(g0[j], d0, (t + 1) as nat) by {
                    assert(gb[j] == subst_n(g0[j], d0, t as nat));
                }
                if !changed {
                    assert forall|j: int| 0 <= j < g0.len() implies !mentions_defined(#[trigger] subst_n(g0[j], d0, (t + 1) as nat), d0) by {
                        assert(gb[j] == subst_n(g0[j], d0, t as nat));
                        assert(!mentions_defined(gb[j], d0));
                        lemma_subst_fixed(gb[j], d0);
                    }
                }
            }
            done = !changed;
            t = t + 1;
        }
        proof {
            assert forall|j: int| 0 <= j < g0.len() implies #[trigger] self.gens()[j] == subst_n(g0[j], d0, n as nat) by {
                if t < n {
                    lemma_subst_n_stable(g0[j], d0, t as nat, n as nat);
                }
            }
        }
        let ghost g2 = self.gens();
        self.drop_zero_gens();
        let ghost g3 = self.gens();
        let ghost kept = choose|kept: Seq<int>| {
            &&& kept_at(g2, g3, kept)
            &&& forall|a: int| 0 <= a < kept.len() ==> #[trigger] g3[a] == g2[kept[a]]
            &&& forall|i: int| 0 <= i < g2.len() && !kept.contains(i) ==> formally_zero(#[trigger] g2[i])
        };
        self.pl = Vec::new();
        proof {
            assert(self.defs() =~= Map::<VarV, PolyV>::empty());
            assert(self.names() == i0.names());
            assert(kept_at(g0, self.gens(), kept));
            assert forall|a: int| 0 <= a < kept.len() implies #[trigger] self.gens()[a] == subst_n(g0[kept[a]], d0, n as nat) by {
                assert(g3[a] == g2[kept[a]]);
            }
            assert forall|i: int| 0 <= i < g0.len() && !kept.contains(i) implies formally_zero(#[trigger] subst_n(g0[i], d0, n as nat)) by {
                assert(formally_zero(g2[i]));
            }
            if acyclic(d0, n as nat) {
                assert forall|a: int| 0 <= a < self.gens().len() implies !mentions_defined(#[trigger] self.gens()[a], d0) by {
                    assert(self.gens()[a] == subst_n(g0[kept[a]], d0, n as nat));
                    lemma_subst_n_resolves(g0[kept[a]], d0, n as nat);
                }
            }
        }
    }
}

} // verus!

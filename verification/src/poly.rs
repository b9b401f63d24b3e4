//! Polynomials over the scalar field whose variables are [`Var`] slots, held
//! as expression trees. Constructors fold literal subterms and drop the
//! neutral elements, so constant expressions stay literals.
use vstd::prelude::*;
use vstd::arithmetic::power::pow;

use crate::field::{modulus, Fe};
use crate::var::Var;
use crate::polyv::{eval, is_const, is_diff, is_prod, is_sum, lit, poly_vars, Env, PolyV};
use crate::var::{views, VarV};

verus! {

broadcast use {crate::field::lemma_val_lt, crate::polyv::lemma_eval_lt};

/// A polynomial expression over the scalar field.
#[derive(Debug)]
pub enum Polynomial {
    Lit(Fe),
    Var(Var),
    Add(Box<Polynomial>, Box<Polynomial>),
    Sub(Box<Polynomial>, Box<Polynomial>),
    Mul(Box<Polynomial>, Box<Polynomial>),
    Neg(Box<Polynomial>),
    Pow(Box<Polynomial>, usize),
}

impl Polynomial {
    pub open spec fn view(&self) -> PolyV
        decreases self,
    {
        match self {
            Polynomial::Lit(c) => PolyV::Lit(c.val()),
            Polynomial::Var(v) => PolyV::Var(v@),
            Polynomial::Add(a, b) => PolyV::Add(Box::new(a.view()), Box::new(b.view())),
            Polynomial::Sub(a, b) => PolyV::Sub(Box::new(a.view()), Box::new(b.view())),
            Polynomial::Mul(a, b) => PolyV::Mul(Box::new(a.view()), Box::new(b.view())),
            Polynomial::Neg(a) => PolyV::Neg(Box::new(a.view())),
            Polynomial::Pow(a, k) => PolyV::Pow(Box::new(a.view()), *k as nat),
        }
    }
}

impl Clone for Polynomial {
    fn clone(&self) -> (r: Self)
        ensures
            r@ == self@,
        decreases self,
    {
        match self {
            Polynomial::Lit(c) => Polynomial::Lit(*c),
            Polynomial::Var(v) => Polynomial::Var(v.clone()),
            Polynomial::Add(a, b) => {
                let (x, y): (&Polynomial, &Polynomial) = (a, b);
                Polynomial::Add(Box::new(x.clone()), Box::new(y.clone()))
            },
            Polynomial::Sub(a, b) => {
                let (x, y): (&Polynomial, &Polynomial) = (a, b);
                Polynomial::Sub(Box::new(x.clone()), Box::new(y.clone()))
            },
            Polynomial::Mul(a, b) => {
                let (x, y): (&Polynomial, &Polynomial) = (a, b);
                Polynomial::Mul(Box::new(x.clone()), Box::new(y.clone()))
            },
            Polynomial::Neg(a) => {
                let x: &Polynomial = a;
                Polynomial::Neg(Box::new(x.clone()))
            },
            Polynomial::Pow(a, k) => {
                let x: &Polynomial = a;
                Polynomial::Pow(Box::new(x.clone()), *k)
            },
        }
    }
}

impl Polynomial {
    /// The zero polynomial.
    pub fn zero() -> (r: Polynomial)
        ensures
            r@ == lit(0),
    {
        Polynomial::Lit(Fe::zero())
    }

    /// The constant polynomial `c`.
    pub fn lit(c: &Fe) -> (r: Polynomial)
        ensures
            r@ == lit(c.val()),
    {
        Polynomial::Lit(*c)
    }

    /// The polynomial consisting of the single variable `v`.
    pub fn var(v: &Var) -> (r: Polynomial)
        ensures
            r@ == PolyV::Var(v@),
    {
        Polynomial::Var(v.clone())
    }

    /// Whether this is the literal zero.
    pub fn is_zero(&self) -> (r: bool)
        ensures
            r == (self@ == lit(0)),
    {
        match self {
            Polynomial::Lit(c) => c.is_zero(),
            _ => false,
        }
    }

    /// `Some(c)` when this is the literal `c`.
    pub fn as_literal(&self) -> (r: Option<Fe>)
        ensures
            r is Some <==> self@ is Lit,
            r matches Some(c) ==> self@ == lit(c.val()),
    {
        match self {
            Polynomial::Lit(c) => Some(*c),
            _ => None,
        }
    }

    /// Sum, folding literals and dropping a zero operand.
    pub fn add(&self, other: &Polynomial) -> (r: Polynomial)
        ensures
            is_sum(r@, self@, other@),
    {
        match (self, other) {
            (Polynomial::Lit(a), Polynomial::Lit(b)) => Polynomial::Lit(a.add(b)),
            _ => {
                if self.is_zero() {
                    return other.clone();
                }
                if other.is_zero() {
                    return self.clone();
                }
                Polynomial::Add(Box::new(self.clone()), Box::new(other.clone()))
            },
        }
    }

    /// Difference, folding literals, dropping a zero subtrahend and turning
    /// `0 - q` into `-q`.
    pub fn sub(&self, other: &Polynomial) -> (r: Polynomial)
        ensures
            is_diff(r@, self@, other@),
    {
        match (self, other) {
            (Polynomial::Lit(a), Polynomial::Lit(b)) => Polynomial::Lit(a.sub(b)),
            _ => {
                if other.is_zero() {
                    return self.clone();
                }
                if self.is_zero() {
                    return other.neg();
                }
                Polynomial::Sub(Box::new(self.clone()), Box::new(other.clone()))
            },
        }
    }

    /// Negation, folding literals.
    pub fn neg(&self) -> (r: Polynomial)
        ensures
            forall|env: Env| #[trigger] eval(r@, env) == ((modulus() - eval(self@, env)) as nat) % modulus(),
    {
        match self {
            Polynomial::Lit(a) => Polynomial::Lit(a.neg()),
            _ => Polynomial::Neg(Box::new(self.clone())),
        }
    }

    /// Product, folding literals, absorbing a zero and dropping a unit
    /// factor.
    pub fn mul(&self, other: &Polynomial) -> (r: Polynomial)
        ensures
            is_prod(r@, self@, other@),
    {
        match (self, other) {
            (Polynomial::Lit(a), Polynomial::Lit(b)) => Polynomial::Lit(a.mul(b)),
            _ => {
                if self.is_zero() || other.is_zero() {
                    return Polynomial::zero();
                }
                if let Polynomial::Lit(a) = self {
                    if a.same(&Fe::one()) {
                        proof {
                            assert forall|env: Env| #[trigger] eval(other@, env) == (eval(self@, env) * eval(other@, env)) % modulus() by {
                                let x = eval(other@, env);
                                assert(eval(self@, env) == 1);
                                assert(1 * x == x);
                                vstd::arithmetic::div_mod::lemma_small_mod(x, modulus());
                            }
                        }
                        return other.clone();
                    }
                }
                if let Polynomial::Lit(b) = other {
                    if b.same(&Fe::one()) {
                        proof {
                            assert forall|env: Env| #[trigger] eval(self@, env) == (eval(self@, env) * eval(other@, env)) % modulus() by {
                                let x = eval(self@, env);
                                assert(eval(other@, env) == 1);
                                assert(x * 1 == x);
                                vstd::arithmetic::div_mod::lemma_small_mod(x, modulus());
                            }
                        }
                        return self.clone();
                    }
                }
                Polynomial::Mul(Box::new(self.clone()), Box::new(other.clone()))
            },
        }
    }

    /// The `k`-th power; `p^0` is the constant one and `p^1` is `p`.
    pub fn pow(&self, k: usize) -> (r: Polynomial)
        ensures
            forall|env: Env| #[trigger] eval(r@, env) == (pow(eval(self@, env) as int, k as nat) as nat) % modulus(),
    {
        if k == 0 {
            proof {
                assert forall|env: Env| #[trigger] eval(Polynomial::lit_one_view(), env) == (pow(eval(self@, env) as int, 0) as nat) % modulus() by {
                    vstd::arithmetic::power::lemma_pow0(eval(self@, env) as int);
                }
            }
            return Polynomial::Lit(Fe::one());
        }
        if k == 1 {
            proof {
                assert forall|env: Env| #[trigger] eval(self@, env) == (pow(eval(self@, env) as int, 1) as nat) % modulus() by {
                    vstd::arithmetic::power::lemma_pow1(eval(self@, env) as int);
                }
            }
            return self.clone();
        }
        Polynomial::Pow(Box::new(self.clone()), k)
    }

    pub open spec fn lit_one_view() -> PolyV {
        lit(1)
    }
}

pub proof fn lemma_pow_nonneg(b: int, e: nat)
    requires
        b >= 0,
    ensures
        pow(b, e) >= 0,
{
    if b > 0 {
        vstd::arithmetic::power::lemma_pow_positive(b, e);
    } else if e == 0 {
        vstd::arithmetic::power::lemma_pow0(b);
    } else {
        vstd::arithmetic::power::lemma0_pow(e);
    }
}

/// `c^k` in the field, by repeated multiplication.
pub fn fe_pow(c: &Fe, k: usize) -> (r: Fe)
    ensures
        r.val() == (pow(c.val() as int, k as nat) as nat) % modulus(),
{
    let mut acc = Fe::one();
    let mut i: usize = 0;
    proof {
        vstd::arithmetic::power::lemma_pow0(c.val() as int);
    }
    while i < k
        invariant
            i <= k,
            acc.val() == (pow(c.val() as int, i as nat) as nat) % modulus(),
        decreases k - i,
    {
        proof {
            let b = c.val() as int;
            vstd::arithmetic::power::lemma_pow_adds(b, i as nat, 1);
            vstd::arithmetic::power::lemma_pow1(b);
            lemma_pow_nonneg(b, i as nat);
            lemma_pow_nonneg(b, (i + 1) as nat);
            vstd::arithmetic::div_mod::lemma_mul_mod_noop_left(pow(b, i as nat), b, modulus() as int);
            assert(pow(b, (i + 1) as nat) == pow(b, i as nat) * b);
        }
        acc = acc.mul(c);
        i = i + 1;
    }
    acc
}

impl Polynomial {
    /// Structural equality of expressions.
    pub fn same(&self, other: &Polynomial) -> (r: bool)
        ensures
            r == (self@ == other@),
        decreases self,
    {
        match (self, other) {
            (Polynomial::Lit(a), Polynomial::Lit(b)) => a.same(b),
            (Polynomial::Var(a), Polynomial::Var(b)) => a.same(b),
            (Polynomial::Add(a, b), Polynomial::Add(c, d)) => {
                let (x, y): (&Polynomial, &Polynomial) = (a, b);
                x.same(c) && y.same(d)
            },
            (Polynomial::Sub(a, b), Polynomial::Sub(c, d)) => {
                let (x, y): (&Polynomial, &Polynomial) = (a, b);
                x.same(c) && y.same(d)
            },
            (Polynomial::Mul(a, b), Polynomial::Mul(c, d)) => {
                let (x, y): (&Polynomial, &Polynomial) = (a, b);
                x.same(c) && y.same(d)
            },
            (Polynomial::Neg(a), Polynomial::Neg(c)) => {
                let x: &Polynomial = a;
                x.same(c)
            },
            (Polynomial::Pow(a, k), Polynomial::Pow(c, j)) => {
                let x: &Polynomial = a;
                *k == *j && x.same(c)
            },
            _ => false,
        }
    }

    /// Whether `v` occurs in this polynomial.
    pub fn contains(&self, v: &Var) -> (r: bool)
        ensures
            r == poly_vars(self@).contains(v@),
        decreases self,
    {
        match self {
            Polynomial::Lit(_) => false,
            Polynomial::Var(w) => w.same(v),
            Polynomial::Add(a, b) | Polynomial::Sub(a, b) | Polynomial::Mul(a, b) => {
                let (x, y): (&Polynomial, &Polynomial) = (a, b);
                x.contains(v) || y.contains(v)
            },
            Polynomial::Neg(a) | Polynomial::Pow(a, _) => {
                let x: &Polynomial = a;
                x.contains(v)
            },
        }
    }

    /// Appends to `out` every variable of this polynomial not already in it.
    pub fn collect_vars(&self, out: &mut Vec<Var>)
        requires
            forall|i: int, j: int| 0 <= i < j < old(out)@.len() ==> old(out)@[i]@ != old(out)@[j]@,
        ensures
            forall|i: int, j: int| 0 <= i < j < final(out)@.len() ==> final(out)@[i]@ != final(out)@[j]@,
            views(final(out)@).to_set() == views(old(out)@).to_set() + poly_vars(self@),
        decreases self,
    {
        match self {
            Polynomial::Lit(_) => {
                assert(views(out@).to_set() =~= views(out@).to_set() + poly_vars(self@));
            },
            Polynomial::Var(w) => {
                let ghost before = views(out@);
                let mut i: usize = 0;
                let mut found = false;
                while i < out.len()
                    invariant
                        i <= out@.len(),
                        found ==> views(out@).contains(w@),
                        !found ==> forall|j: int| 0 <= j < i ==> out@[j]@ != w@,
                        before == views(out@),
                    decreases out@.len() - i,
                {
                    if out[i].same(w) {
                        found = true;
                        assert(views(out@)[i as int] == w@);
                    }
                    i = i + 1;
                }
                if !found {
                    proof {
                        assert(!views(out@).contains(w@)) by {
                            if views(out@).contains(w@) {
                                let j = choose|j: int| 0 <= j < views(out@).len() && views(out@)[j] == w@;
                                assert(out@[j]@ == w@);
                            }
                        }
                    }
                    out.push(w.clone());
                    proof {
                        assert(views(out@) =~= before.push(w@));
                        assert(views(out@).to_set() =~= before.to_set().insert(w@)) by {
                            assert forall|x: VarV| #[trigger] views(out@).to_set().contains(x) <==> before.to_set().insert(w@).contains(x) by {
                                if views(out@).to_set().contains(x) {
                                    let j = choose|j: int| 0 <= j < views(out@).len() && views(out@)[j] == x;
                                    if j < before.len() {
                                        assert(before[j] == x);
                                    }
                                }
                                if before.to_set().contains(x) {
                                    let j = choose|j: int| 0 <= j < before.len() && before[j] == x;
                                    assert(views(out@)[j] == x);
                                }
                                if x == w@ {
                                    assert(views(out@)[before.len() as int] == x);
                                }
                            }
                        }
                    }
                }
                assert(views(out@).to_set() =~= before.to_set() + poly_vars(self@));
            },
            Polynomial::Add(a, b) | Polynomial::Sub(a, b) | Polynomial::Mul(a, b) => {
                let (x, y): (&Polynomial, &Polynomial) = (a, b);
                x.collect_vars(out);
                y.collect_vars(out);
                assert(views(out@).to_set() =~= views(old(out)@).to_set() + poly_vars(self@));
            },
            Polynomial::Neg(a) | Polynomial::Pow(a, _) => {
                let x: &Polynomial = a;
                x.collect_vars(out);
            },
        }
    }

    /// The distinct variables occurring in this polynomial.
    pub fn vars(&self) -> (r: Vec<Var>)
        ensures
            views(r@).to_set() == poly_vars(self@),
            forall|i: int, j: int| 0 <= i < j < r@.len() ==> r@[i]@ != r@[j]@,
    {
        let mut out: Vec<Var> = Vec::new();
        self.collect_vars(&mut out);
        assert(views(Seq::<Var>::empty()).to_set() =~= Set::<VarV>::empty());
        assert(poly_vars(self@) =~= Set::<VarV>::empty() + poly_vars(self@));
        out
    }

    /// `Some(c)` when no variable occurs, `c` being the constant it denotes.
    #[verifier::rlimit(100)]
    #[verifier::spinoff_prover]
    pub fn constant_value(&self) -> (r: Option<Fe>)
        ensures
            r is Some <==> poly_vars(self@) == Set::<VarV>::empty(),
            r matches Some(c) ==> is_const(self@, c.val()),
        decreases self,
    {
        match self {
            Polynomial::Lit(c) => Some(*c),
            Polynomial::Var(v) => {
                assert(poly_vars(self@).contains(v@));
                None
            },
            Polynomial::Add(a, b) | Polynomial::Sub(a, b) | Polynomial::Mul(a, b) => {
                let (x, y): (&Polynomial, &Polynomial) = (a, b);
                let ca = x.constant_value();
                let cb = y.constant_value();
                match (ca, cb) {
                    (Some(u), Some(w)) => {
                        assert(poly_vars(self@) =~= Set::<VarV>::empty());
                        match self {
                            Polynomial::Add(_, _) => {
                                let r = u.add(&w);
                                assert forall|env: Env| #[trigger] eval(self@, env) == r.val() % modulus() by {
                                    assert(eval(x@, env) == u.val() % modulus());
                                    assert(eval(y@, env) == w.val() % modulus());
                                }
                                Some(r)
                            },
                            Polynomial::Sub(_, _) => {
                                let r = u.sub(&w);
                                assert forall|env: Env| #[trigger] eval(self@, env) == r.val() % modulus() by {
                                    assert(eval(x@, env) == u.val() % modulus());
                                    assert(eval(y@, env) == w.val() % modulus());
                                }
                                Some(r)
                            },
                            _ => {
                                let r = u.mul(&w);
                                assert forall|env: Env| #[trigger] eval(self@, env) == r.val() % modulus() by {
                                    assert(eval(x@, env) == u.val() % modulus());
                                    assert(eval(y@, env) == w.val() % modulus());
                                }
                                Some(r)
                            },
                        }
                    },
                    _ => {
                        proof {
                            if poly_vars(self@) == Set::<VarV>::empty() {
                                assert(poly_vars(x@) =~= Set::<VarV>::empty());
                                assert(poly_vars(y@) =~= Set::<VarV>::empty());
                            }
                        }
                        None
                    },
                }
            },
            Polynomial::Neg(a) => {
                let x: &Polynomial = a;
                match x.constant_value() {
                    Some(u) => {
                        let r = u.neg();
                        assert forall|env: Env| #[trigger] eval(self@, env) == r.val() % modulus() by {
                            assert(eval(x@, env) == u.val() % modulus());
                        }
                        Some(r)
                    },
                    None => None,
                }
            },
            Polynomial::Pow(a, k) => {
                let x: &Polynomial = a;
                match x.constant_value() {
                    Some(u) => {
                        let r = fe_pow(&u, *k);
                        proof {
                            assert forall|env: Env| #[trigger] eval(self@, env) == r.val() % modulus() by {
                                assert(eval(x@, env) == u.val() % modulus());
                            }
                        }
                        Some(r)
                    },
                    None => None,
                }
            },
        }
    }
}


/// The value assigned to `v` by the point `s`: the first matching entry, or
/// zero.
pub open spec fn lookup(s: Seq<(Var, Fe)>, v: VarV) -> nat
    decreases s.len(),
{
    if s.len() == 0 {
        0
    } else if s[0].0@ == v {
        s[0].1.val()
    } else {
        lookup(s.drop_first(), v)
    }
}

/// The assignment given by the point `s`.
pub open spec fn point_env(s: Seq<(Var, Fe)>) -> Env {
    |v: VarV| lookup(s, v)
}

fn lookup_value(vals: &[(Var, Fe)], v: &Var) -> (r: Fe)
    ensures
        r.val() == lookup(vals@, v@),
{
    let mut i: usize = 0;
    assert(vals@.subrange(0, vals@.len() as int) =~= vals@);
    while i < vals.len()
        invariant
            i <= vals@.len(),
            lookup(vals@.subrange(i as int, vals@.len() as int), v@) == lookup(vals@, v@),
        decreases vals@.len() - i,
    {
        let ghost rest = vals@.subrange(i as int, vals@.len() as int);
        assert(rest[0] == vals@[i as int]);
        if vals[i].0.same(v) {
            return vals[i].1;
        }
        assert(rest.drop_first() =~= vals@.subrange(i + 1, vals@.len() as int));
        i = i + 1;
    }
    Fe::zero()
}

impl Polynomial {
    /// The value at the point assigning `vals[i].1` to `vals[i].0` and zero
    /// to every other variable.
    pub fn evaluate(&self, vals: &[(Var, Fe)]) -> (r: Fe)
        ensures
            r.val() == eval(self@, point_env(vals@)),
        decreases self,
    {
        let ghost env = point_env(vals@);
        match self {
            Polynomial::Lit(c) => {
                proof {
                    vstd::arithmetic::div_mod::lemma_small_mod(c.val(), modulus());
                }
                *c
            },
            Polynomial::Var(v) => {
                let r = lookup_value(vals, v);
                proof {
                    vstd::arithmetic::div_mod::lemma_small_mod(r.val(), modulus());
                }
                r
            },
            Polynomial::Add(a, b) => {
                let (x, y): (&Polynomial, &Polynomial) = (a, b);
                x.evaluate(vals).add(&y.evaluate(vals))
            },
            Polynomial::Sub(a, b) => {
                let (x, y): (&Polynomial, &Polynomial) = (a, b);
                x.evaluate(vals).sub(&y.evaluate(vals))
            },
            Polynomial::Mul(a, b) => {
                let (x, y): (&Polynomial, &Polynomial) = (a, b);
                x.evaluate(vals).mul(&y.evaluate(vals))
            },
            Polynomial::Neg(a) => {
                let x: &Polynomial = a;
                x.evaluate(vals).neg()
            },
            Polynomial::Pow(a, k) => {
                let x: &Polynomial = a;
                let base = x.evaluate(vals);
                fe_pow(&base, *k)
            },
        }
    }
}

} // verus!

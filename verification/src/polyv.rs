//! The mathematical reading of polynomial expressions: their value under an
//! assignment of field values to variables.
use vstd::prelude::*;
use vstd::arithmetic::power::pow;

use crate::field::modulus;
use crate::var::VarV;

verus! {

/// The mathematical form of a [`Polynomial`].
pub enum PolyV {
    Lit(nat),
    Var(VarV),
    Add(Box<PolyV>, Box<PolyV>),
    Sub(Box<PolyV>, Box<PolyV>),
    Mul(Box<PolyV>, Box<PolyV>),
    Neg(Box<PolyV>),
    Pow(Box<PolyV>, nat),
}

/// An assignment of field values to variables.
pub type Env = spec_fn(VarV) -> nat;

/// The value of `p` under `env`, reduced modulo the field order.
pub open spec fn eval(p: PolyV, env: Env) -> nat
    decreases p,
{
    match p {
        PolyV::Lit(c) => c % modulus(),
        PolyV::Var(v) => env(v) % modulus(),
        PolyV::Add(a, b) => (eval(*a, env) + eval(*b, env)) % modulus(),
        PolyV::Sub(a, b) => ((eval(*a, env) + modulus() - eval(*b, env)) as nat) % modulus(),
        PolyV::Mul(a, b) => (eval(*a, env) * eval(*b, env)) % modulus(),
        PolyV::Neg(a) => ((modulus() - eval(*a, env)) as nat) % modulus(),
        PolyV::Pow(a, k) => (pow(eval(*a, env) as int, k) as nat) % modulus(),
    }
}

/// Values are always reduced.
pub broadcast proof fn lemma_eval_lt(p: PolyV, env: Env)
    ensures
        #[trigger] eval(p, env) < modulus(),
{
}

/// The variables occurring in `p`.
pub open spec fn poly_vars(p: PolyV) -> Set<VarV>
    decreases p,
{
    match p {
        PolyV::Lit(_) => Set::empty(),
        PolyV::Var(v) => set![v],
        PolyV::Add(a, b) => poly_vars(*a) + poly_vars(*b),
        PolyV::Sub(a, b) => poly_vars(*a) + poly_vars(*b),
        PolyV::Mul(a, b) => poly_vars(*a) + poly_vars(*b),
        PolyV::Neg(a) => poly_vars(*a),
        PolyV::Pow(a, _) => poly_vars(*a),
    }
}

/// A polynomial has finitely many variables.
pub proof fn lemma_poly_vars_finite(p: PolyV)
    ensures
        poly_vars(p).finite(),
    decreases p,
{
    match p {
        PolyV::Add(a, b) | PolyV::Sub(a, b) | PolyV::Mul(a, b) => {
            lemma_poly_vars_finite(*a);
            lemma_poly_vars_finite(*b);
        },
        PolyV::Neg(a) | PolyV::Pow(a, _) => lemma_poly_vars_finite(*a),
        PolyV::Var(v) => {
            assert(set![v].finite());
        },
        PolyV::Lit(_) => {},
    }
}

/// The field value of a literal `c`.
pub open spec fn lit(c: nat) -> PolyV {
    PolyV::Lit(c)
}

/// `p` and `q` denote the same function of the variables.
pub open spec fn equiv(p: PolyV, q: PolyV) -> bool {
    forall|env: Env| #[trigger] eval(p, env) == eval(q, env)
}

/// `r` denotes `p + q`.
pub open spec fn is_sum(r: PolyV, p: PolyV, q: PolyV) -> bool {
    forall|env: Env| #[trigger] eval(r, env) == (eval(p, env) + eval(q, env)) % modulus()
}

/// `r` denotes `p - q`.
pub open spec fn is_diff(r: PolyV, p: PolyV, q: PolyV) -> bool {
    forall|env: Env| #[trigger] eval(r, env) == ((eval(p, env) + modulus() - eval(q, env)) as nat) % modulus()
}

/// `r` denotes `p * q`.
pub open spec fn is_prod(r: PolyV, p: PolyV, q: PolyV) -> bool {
    forall|env: Env| #[trigger] eval(r, env) == (eval(p, env) * eval(q, env)) % modulus()
}

/// `r` denotes the constant `c`.
pub open spec fn is_const(r: PolyV, c: nat) -> bool {
    forall|env: Env| #[trigger] eval(r, env) == c % modulus()
}

/// `(a mod m + m - b mod m) mod m = (a - b) mod m`.
pub proof fn lemma_mod_diff(a: int, b: int, m: int)
    requires
        m > 0,
    ensures
        ((a % m) + m - (b % m)) % m == (a - b) % m,
{
    let qa = a / m;
    let qb = b / m;
    vstd::arithmetic::div_mod::lemma_fundamental_div_mod(a, m);
    vstd::arithmetic::div_mod::lemma_fundamental_div_mod(b, m);
    assert((a % m) + m - (b % m) == m * (qb - qa + 1) + (a - b)) by (nonlinear_arith)
        requires
            a == m * qa + a % m,
            b == m * qb + b % m,
    ;
    vstd::arithmetic::div_mod::lemma_mod_multiples_vanish(qb - qa + 1, a - b, m);
}

} // verus!

//! Elements of the BLS12-381 scalar field, held as canonical little-endian
//! limbs. Every arithmetic operation is carried out by `ark_ff` on
//! `ark_bls12_381::Fr`.
use vstd::prelude::*;

use ark_bls12_381::Fr;
use ark_ff::{BigInt, Field, PrimeField};

verus! {

/// The order `r` of the BLS12-381 scalar field.
pub open spec fn modulus() -> nat {
    52435875175126190479447740508185965837690552500527637822603658699938581184513nat
}

/// The integer spelled by four little-endian 64-bit limbs.
pub open spec fn limbs_value(l: [u64; 4]) -> nat {
    l[0] as nat + l[1] as nat * 0x1_0000_0000_0000_0000nat
        + l[2] as nat * 0x1_0000_0000_0000_0000_0000_0000_0000_0000nat
        + l[3] as nat * 0x1_0000_0000_0000_0000_0000_0000_0000_0000_0000_0000_0000_0000nat
}

/// A field element in canonical form: its limbs spell an integer below the
/// modulus.
#[derive(Clone, Copy, Debug)]
pub struct Fe {
    limbs: [u64; 4],
}

impl Fe {
    #[verifier::type_invariant]
    spec fn canonical(self) -> bool {
        limbs_value(self.limbs) < modulus()
    }

    /// The residue this element stands for, in `0..modulus()`.
    pub closed spec fn val(self) -> nat {
        limbs_value(self.limbs) % modulus()
    }

    /// The element `x mod r` (every `u64` is below `r`).
    pub fn from_u64(x: u64) -> (r: Fe)
        ensures
            r.val() == x as nat,
    {
        let r = Fe { limbs: [x, 0, 0, 0] };
        assert(limbs_value(r.limbs) == x as nat);
        r
    }

    /// The element `x mod r` for an index or count.
    pub fn from_usize(x: usize) -> (r: Fe)
        ensures
            r.val() == x as nat,
    {
        Fe::from_u64(x as u64)
    }

    pub fn zero() -> (r: Fe)
        ensures
            r.val() == 0,
    {
        Fe::from_u64(0)
    }

    pub fn one() -> (r: Fe)
        ensures
            r.val() == 1,
    {
        Fe::from_u64(1)
    }

    /// The canonical limbs, least significant first.
    pub fn limbs(&self) -> (r: [u64; 4])
        ensures
            limbs_value(r) == self.val(),
            limbs_value(r) < modulus(),
    {
        proof {
            use_type_invariant(self);
        }
        self.limbs
    }

    /// Builds an element from little-endian limbs; `None` when they spell an
    /// integer that is not below the modulus.
    pub fn from_limbs(l: [u64; 4]) -> (r: Option<Fe>)
        ensures
            r is Some <==> limbs_value(l) < modulus(),
            r matches Some(f) ==> f.val() == limbs_value(l),
    {
        // modulus = 0x73eda753299d7d48_3339d80809a1d805_53bda402fffe5bfe_ffffffff00000001
        let m3: u64 = 0x73eda753299d7d48;
        let m2: u64 = 0x3339d80809a1d805;
        let m1: u64 = 0x53bda402fffe5bfe;
        let m0: u64 = 0xffffffff00000001;
        assert(modulus() == limbs_value([m0, m1, m2, m3]));
        let below = l[3] < m3 || (l[3] == m3 && (l[2] < m2 || (l[2] == m2 && (l[1] < m1 || (
        l[1] == m1 && l[0] < m0)))));
        proof {
            lemma_limbs_lt(l, [m0, m1, m2, m3]);
        }
        if below {
            Some(Fe { limbs: l })
        } else {
            None
        }
    }

    pub fn is_zero(&self) -> (r: bool)
        ensures
            r == (self.val() == 0),
    {
        proof {
            use_type_invariant(self);
        }
        self.limbs[0] == 0 && self.limbs[1] == 0 && self.limbs[2] == 0 && self.limbs[3] == 0
    }

    /// Equality of residues.
    pub fn same(&self, other: &Fe) -> (r: bool)
        ensures
            r == (self.val() == other.val()),
    {
        proof {
            use_type_invariant(self);
            use_type_invariant(other);
            lemma_limbs_injective(self.limbs, other.limbs);
        }
        self.limbs[0] == other.limbs[0] && self.limbs[1] == other.limbs[1] && self.limbs[2]
            == other.limbs[2] && self.limbs[3] == other.limbs[3]
    }

    /// Addition in the field.
    pub fn add(&self, other: &Fe) -> (r: Fe)
        ensures
            r.val() == (self.val() + other.val()) % modulus(),
    {
        fr_add(*self, *other)
    }

    /// Subtraction in the field.
    pub fn sub(&self, other: &Fe) -> (r: Fe)
        ensures
            r.val() == ((self.val() + modulus() - other.val()) as nat) % modulus(),
    {
        fr_sub(*self, *other)
    }

    /// Multiplication in the field.
    pub fn mul(&self, other: &Fe) -> (r: Fe)
        ensures
            r.val() == (self.val() * other.val()) % modulus(),
    {
        fr_mul(*self, *other)
    }

    /// Additive inverse.
    pub fn neg(&self) -> (r: Fe)
        ensures
            r.val() == ((modulus() - self.val()) as nat) % modulus(),
    {
        fr_neg(*self)
    }

    /// Multiplicative inverse; `None` exactly for zero.
    pub fn inverse(&self) -> (r: Option<Fe>)
        ensures
            r is None <==> self.val() == 0,
            r matches Some(i) ==> (self.val() * i.val()) % modulus() == 1,
    {
        fr_inverse(*self)
    }
}

/// Every residue lies below the modulus.
pub broadcast proof fn lemma_val_lt(x: Fe)
    ensures
        #[trigger] x.val() < modulus(),
{
}

proof fn lemma_limbs_injective(a: [u64; 4], b: [u64; 4])
    ensures
        limbs_value(a) == limbs_value(b) ==> a == b,
{
    if limbs_value(a) == limbs_value(b) {
        assert(a[0] == b[0]);
        assert(a[1] == b[1]);
        assert(a[2] == b[2]);
        assert(a[3] == b[3]);
        assert(a =~= b);
    }
}

proof fn lemma_limbs_lt(a: [u64; 4], b: [u64; 4])
    ensures
        (limbs_value(a) < limbs_value(b)) == (a[3] < b[3] || (a[3] == b[3] && (a[2] < b[2] || (a[2]
            == b[2] && (a[1] < b[1] || (a[1] == b[1] && a[0] < b[0])))))),
{
}

/// Calls `Fr + Fr` from `ark_ff`: the sum of the two residues modulo the
/// field order.
#[verifier::external_body]
fn fr_add(a: Fe, b: Fe) -> (r: Fe)
    ensures
        r.val() == (a.val() + b.val()) % modulus(),
{
    let x = Fr::from_bigint(BigInt::new(a.limbs)).unwrap();
    let y = Fr::from_bigint(BigInt::new(b.limbs)).unwrap();
    Fe { limbs: (x + y).into_bigint().0 }
}

/// Calls `Fr - Fr` from `ark_ff`: the difference of the two residues modulo
/// the field order.
#[verifier::external_body]
fn fr_sub(a: Fe, b: Fe) -> (r: Fe)
    ensures
        r.val() == ((a.val() + modulus() - b.val()) as nat) % modulus(),
{
    let x = Fr::from_bigint(BigInt::new(a.limbs)).unwrap();
    let y = Fr::from_bigint(BigInt::new(b.limbs)).unwrap();
    Fe { limbs: (x - y).into_bigint().0 }
}

/// Calls `Fr * Fr` from `ark_ff`: the product of the two residues modulo the
/// field order.
#[verifier::external_body]
fn fr_mul(a: Fe, b: Fe) -> (r: Fe)
    ensures
        r.val() == (a.val() * b.val()) % modulus(),
{
    let x = Fr::from_bigint(BigInt::new(a.limbs)).unwrap();
    let y = Fr::from_bigint(BigInt::new(b.limbs)).unwrap();
    Fe { limbs: (x * y).into_bigint().0 }
}

/// Calls unary `-Fr` from `ark_ff`: the additive inverse modulo the field
/// order.
#[verifier::external_body]
fn fr_neg(a: Fe) -> (r: Fe)
    ensures
        r.val() == ((modulus() - a.val()) as nat) % modulus(),
{
    let x = Fr::from_bigint(BigInt::new(a.limbs)).unwrap();
    Fe { limbs: (-x).into_bigint().0 }
}

/// Calls `Field::inverse` on `Fr` from `ark_ff`: `None` for zero, otherwise
/// the residue whose product with the argument is one modulo the field order.
#[verifier::external_body]
fn fr_inverse(a: Fe) -> (r: Option<Fe>)
    ensures
        r is None <==> a.val() == 0,
        r matches Some(i) ==> (a.val() * i.val()) % modulus() == 1,
{
    let x = Fr::from_bigint(BigInt::new(a.limbs)).unwrap();
    x.inverse().map(|i| Fe { limbs: i.into_bigint().0 })
}

/// The root of unity of order `n` that `ark_ff` chooses for the scalar
/// field, as a residue, if the field has one.
pub uninterp spec fn root_of_unity(n: u64) -> Option<nat>;

/// The orders `ark_ff` has roots of unity for in the scalar field: `2^a * 3^b`
/// with `a <= 32` (the two-adicity of the field) and `b <= 1` (the field's
/// small subgroup `3^1`).
pub open spec fn fft_size(n: nat) -> bool {
    exists|a: nat, b: nat|
        #![trigger vstd::arithmetic::power2::pow2(a), vstd::arithmetic::power::pow(3, b)]
        a <= 32 && b <= 1 && n == vstd::arithmetic::power2::pow2(a) * vstd::arithmetic::power::pow(3, b)
}

/// Calls `FftField::get_root_of_unity` on `Fr` from `ark_ff`: the field's
/// root of unity of order `n`, returned exactly when `n` is `2^a * 3^b` with
/// `a <= 32` and `b <= 1` (the mixed-radix branch for `Fr`'s small subgroup
/// base 3 of adicity 1). What is stated of the residue returned is that its
/// `n`-th power is one; which of the roots it is, is left to the name.
#[verifier::external_body]
pub(crate) fn fr_root_of_unity(n: u64) -> (r: Option<Fe>)
    ensures
        r is Some <==> root_of_unity(n) is Some,
        r is Some <==> fft_size(n as nat),
        r matches Some(w) ==> w.val() == root_of_unity(n)->0,
        r matches Some(w) ==> (vstd::arithmetic::power::pow(w.val() as int, n as nat) as nat) % modulus() == 1,
{
    <Fr as ark_ff::FftField>::get_root_of_unity(n).map(|w| Fe { limbs: w.into_bigint().0 })
}

} // verus!

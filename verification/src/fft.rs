//! Discrete Fourier transforms between the coefficient and the evaluation
//! form of a polynomial value, over the roots of unity of the scalar field.
use vstd::prelude::*;

use crate::combinatorics::{dft_row, dft_sum};
use crate::encode::{encodes, link_to_polys, poly_vals};
use crate::field::{fr_root_of_unity, modulus, root_of_unity, Fe};
use crate::ideal::Ideal;
use crate::poly::Polynomial;
use crate::poly_source::{operand_ok, operand_polys, pviews, Operand, PolySource};
use crate::polyv::{eval, Env, PolyV};
use crate::var::{slot_list, slots_ok, Var};

verus! {

broadcast use {crate::field::lemma_val_lt, crate::polyv::lemma_eval_lt};

/// Values of the DFT of `cs` for the root `w`: slot `i` is
/// `sum_j w^(i j) cs[j]`.
pub open spec fn dft_vals(cs: Seq<PolyV>, w: nat) -> Seq<spec_fn(Env) -> int> {
    Seq::new(cs.len(), |i: int| (|env: Env| dft_sum(cs, w, i as nat, env, cs.len())))
}

/// Values of the inverse DFT of `vs`, given the inverse `wi` of the root
/// and the inverse `ni` of the length: slot `j` is
/// `ni * sum_i wi^(i j) vs[i]`.
pub open spec fn idft_vals(vs: Seq<PolyV>, wi: nat, ni: nat) -> Seq<spec_fn(Env) -> int> {
    Seq::new(vs.len(), |j: int| (|env: Env| dft_sum(vs, wi, j as nat, env, vs.len()) * ni))
}

/// What a transform of the operand `a` into `var` needs: the operand's
/// slots exist, match `var`'s in number, and can be counted in a `u64`.
pub open spec fn transform_ok(ideal: Ideal, var: crate::var::VarV, a: Operand) -> bool {
    &&& operand_ok(a, ideal)
    &&& slots_ok(var.typ)
    &&& slot_list(var).len() == operand_polys(a, ideal).len()
    &&& operand_polys(a, ideal).len() <= u64::MAX
}

/// Bind slot `i` of `var` to row `i` of the DFT matrix for `omega` applied
/// to `coeffs`.
pub fn dft_with_root(ideal: &mut Ideal, var: &Var, coeffs: &[Polynomial], omega: Fe)
    requires
        old(ideal).wf(),
        slots_ok(var.typ@),
        slot_list(var@).len() == coeffs@.len(),
    ensures
        encodes(*old(ideal), *final(ideal), slot_list(var@), dft_vals(pviews(coeffs@), omega.val())),
{
    let ghost cs = pviews(coeffs@);
    let ghost want = dft_vals(cs, omega.val());
    let mut polys: Vec<Polynomial> = Vec::new();
    let mut i: usize = 0;
    while i < coeffs.len()
        invariant
            i <= coeffs@.len(),
            cs == pviews(coeffs@),
            polys@.len() == i,
            forall|q: int, env: Env| 0 <= q < i ==> #[trigger] eval(polys@[q]@, env)
                == dft_sum(cs, omega.val(), q as nat, env, coeffs@.len()) % (modulus() as int),
        decreases coeffs@.len() - i,
    {
        polys.push(dft_row(coeffs, omega, i));
        i = i + 1;
    }
    let ghost got = poly_vals(pviews(polys@));
    link_to_polys(ideal, var, polys);
    proof {
        let md = modulus() as int;
        assert forall|t: int, env: Env| 0 <= t < want.len() implies #[trigger] (got[t](env) % md) == want[t](env) % md by {
            assert(got[t](env) == eval(polys@[t]@, env) as int);
            vstd::arithmetic::div_mod::lemma_mod_twice(want[t](env), md);
        }
        crate::arith::lemma_encodes_vals(*old(ideal), *ideal, slot_list(var@), got, want);
    }
}

/// Bind slot `j` of `var` to `n_inv * sum_i omega_inv^(i j) values[i]`, the
/// inverse DFT when `omega_inv` and `n_inv` invert the root and the length.
pub fn idft_with_root(ideal: &mut Ideal, var: &Var, values: &[Polynomial], omega_inv: Fe, n_inv: Fe)
    requires
        old(ideal).wf(),
        slots_ok(var.typ@),
        slot_list(var@).len() == values@.len(),
    ensures
        encodes(*old(ideal), *final(ideal), slot_list(var@), idft_vals(pviews(values@), omega_inv.val(), n_inv.val())),
{
    let ghost vs = pviews(values@);
    let ghost want = idft_vals(vs, omega_inv.val(), n_inv.val());
    let scale = Polynomial::lit(&n_inv);
    let mut polys: Vec<Polynomial> = Vec::new();
    let mut j: usize = 0;
    while j < values.len()
        invariant
            j <= values@.len(),
            vs == pviews(values@),
            scale@ == crate::polyv::lit(n_inv.val()),
            polys@.len() == j,
            forall|q: int, env: Env| 0 <= q < j ==> #[trigger] eval(polys@[q]@, env)
                == (dft_sum(vs, omega_inv.val(), q as nat, env, values@.len()) * n_inv.val()) % (modulus() as int),
        decreases values@.len() - j,
    {
        let row = dft_row(values, omega_inv, j);
        let p = row.mul(&scale);
        proof {
            let md = modulus() as int;
            assert forall|env: Env| #[trigger] eval(p@, env)
                == (dft_sum(vs, omega_inv.val(), j as nat, env, values@.len()) * n_inv.val()) % md by {
                let d = dft_sum(vs, omega_inv.val(), j as nat, env, values@.len());
                assert(eval(scale@, env) == n_inv.val() % modulus());
                vstd::arithmetic::div_mod::lemma_small_mod(n_inv.val(), modulus());
                vstd::arithmetic::div_mod::lemma_mul_mod_noop_left(d, n_inv.val() as int, md);
            }
        }
        polys.push(p);
        j = j + 1;
    }
    let ghost got = poly_vals(pviews(polys@));
    link_to_polys(ideal, var, polys);
    proof {
        let md = modulus() as int;
        assert forall|t: int, env: Env| 0 <= t < want.len() implies #[trigger] (got[t](env) % md) == want[t](env) % md by {
            assert(got[t](env) == eval(polys@[t]@, env) as int);
            vstd::arithmetic::div_mod::lemma_mod_twice(want[t](env), md);
        }
        crate::arith::lemma_encodes_vals(*old(ideal), *ideal, slot_list(var@), got, want);
    }
}

/// Forward DFT: `var` holds the evaluations, on the powers of the field's
/// root of unity of order `n`, of the polynomial whose `n` coefficients
/// are the slots of `a`. `false`, with nothing bound, when the field has no
/// such root.
pub fn encode_fft(ideal: &mut Ideal, var: &Var, a: &Operand) -> (ok: bool)
    requires
        old(ideal).wf(),
        transform_ok(*old(ideal), var@, *a),
    ensures
        ok == root_of_unity(operand_polys(*a, *old(ideal)).len() as u64) is Some,
        ok ==> encodes(
            *old(ideal),
            *final(ideal),
            slot_list(var@),
            dft_vals(operand_polys(*a, *old(ideal)), root_of_unity(operand_polys(*a, *old(ideal)).len() as u64)->0),
        ),
        !ok ==> *final(ideal) == *old(ideal),
{
    let coeff_polys = PolySource::ref_vars(a, ideal);
    let n = coeff_polys.len();
    match fr_root_of_unity(n as u64) {
        Some(omega) => {
            dft_with_root(ideal, var, coeff_polys.as_slice(), omega);
            true
        },
        None => false,
    }
}

/// DFT evaluation of the coefficient slots of `p` on the full grid of
/// powers of the field's root of unity of order `n`; `false`, with nothing
/// bound, when the field has no such root.
pub fn encode_dft(ideal: &mut Ideal, var: &Var, p: &Operand) -> (ok: bool)
    requires
        old(ideal).wf(),
        transform_ok(*old(ideal), var@, *p),
    ensures
        ok == root_of_unity(operand_polys(*p, *old(ideal)).len() as u64) is Some,
        ok ==> encodes(
            *old(ideal),
            *final(ideal),
            slot_list(var@),
            dft_vals(operand_polys(*p, *old(ideal)), root_of_unity(operand_polys(*p, *old(ideal)).len() as u64)->0),
        ),
        !ok ==> *final(ideal) == *old(ideal),
{
    encode_fft(ideal, var, p)
}

/// Inverse DFT: `var` holds the coefficients of the polynomial whose
/// evaluations on the powers of the field's root of unity of order `n` are
/// the `n` slots of `a`; `false`, with nothing bound, when the field has no
/// such root.
pub fn encode_ifft(ideal: &mut Ideal, var: &Var, a: &Operand) -> (ok: bool)
    requires
        old(ideal).wf(),
        transform_ok(*old(ideal), var@, *a),
    ensures
        ok == (root_of_unity(operand_polys(*a, *old(ideal)).len() as u64) is Some && operand_polys(*a, *old(ideal)).len() > 0),
        ok ==> exists|wi: nat, ni: nat| {
            &&& (root_of_unity(operand_polys(*a, *old(ideal)).len() as u64)->0 * wi) % modulus() == 1
            &&& (operand_polys(*a, *old(ideal)).len() * ni) % modulus() == 1
            &&& #[trigger] encodes(*old(ideal), *final(ideal), slot_list(var@), idft_vals(operand_polys(*a, *old(ideal)), wi, ni))
        },
        !ok ==> *final(ideal) == *old(ideal),
{
    let v_polys = PolySource::ref_vars(a, ideal);
    let n = v_polys.len();
    let omega = match fr_root_of_unity(n as u64) {
        Some(w) => w,
        None => {
            return false;
        },
    };
    let ghost w = omega.val();
    if n == 0 {
        return false;
    }
    let omega_inv = match omega.inverse() {
        Some(x) => x,
        None => {
            proof {
                lemma_root_nonzero(w, n as nat);
            }
            return false;
        },
    };
    let n_inv = match Fe::from_u64(n as u64).inverse() {
        Some(x) => x,
        None => {
            return false;
        },
    };
    idft_with_root(ideal, var, v_polys.as_slice(), omega_inv, n_inv);
    true
}

/// A residue with a power equal to one is not zero.
proof fn lemma_root_nonzero(w: nat, n: nat)
    requires
        (vstd::arithmetic::power::pow(w as int, n) as nat) % modulus() == 1,
        n > 0,
    ensures
        w != 0,
{
    if w == 0 {
        vstd::arithmetic::power::lemma0_pow(n);
    }
}

} // verus!

//! The coefficient form a multilinear table is lifted to interpolates the
//! table: evaluated at each hypercube point it gives back that point's
//! entry.
use vstd::prelude::*;
use vstd::arithmetic::div_mod::*;
use vstd::arithmetic::power2::*;

use vstd::arithmetic::power::{lemma_pow0, lemma_pow1, pow};

use crate::combinatorics::{
    bit, bits_value, cube_point, enumerates, grlex_lt, is_multi_index, lemma_enumeration_len, lemma_grlex_irrefl,
    lemma_hypercube_roundtrip, mi_seq, seq_sum,
};
use crate::field::modulus;
use crate::polyv::{eval, Env, PolyV};
use crate::poly_source::{lag_sum, liftable, lifted};
use crate::typ::{plen, TypV};
use crate::eval::mono_val;
use crate::poly_source::{entry, lag1, lag_coeff, lag_prefix, pad};


verus! {

/// `sum_{t < n} f(t)`.
pub open spec fn isum(f: spec_fn(int) -> int, n: nat) -> int
    decreases n,
{
    if n == 0 {
        0
    } else {
        isum(f, (n - 1) as nat) + f(n - 1)
    }
}

/// `sum` of `g` over the entries of `s`.
pub open spec fn gsum(s: Seq<Seq<usize>>, g: spec_fn(Seq<usize>) -> int) -> int
    decreases s.len(),
{
    if s.len() == 0 {
        0
    } else {
        gsum(s.drop_last(), g) + g(s.last())
    }
}

/// No entry of `s` occurs twice.
pub open spec fn no_dup(s: Seq<Seq<usize>>) -> bool {
    forall|a: int, b: int| 0 <= a < s.len() && 0 <= b < s.len() && a != b ==> #[trigger] s[a] != #[trigger] s[b]
}

proof fn lemma_gsum_remove(e: Seq<Seq<usize>>, g: spec_fn(Seq<usize>) -> int, r: int)
    requires
        0 <= r < e.len(),
    ensures
        gsum(e, g) == gsum(e.remove(r), g) + g(e[r]),
    decreases e.len(),
{
    if r == e.len() - 1 {
        assert(e.remove(r) =~= e.drop_last());
    } else {
        lemma_gsum_remove(e.drop_last(), g, r);
        assert(e.remove(r).drop_last() =~= e.drop_last().remove(r));
        assert(e.remove(r).last() == e.last());
    }
}

/// Summing over `d` what vanishes outside `e`, when `d` holds each entry of
/// `e` once, is summing over `e`.
#[verifier::spinoff_prover]
proof fn lemma_gsum_reindex(d: Seq<Seq<usize>>, e: Seq<Seq<usize>>, g: spec_fn(Seq<usize>) -> int)
    requires
        no_dup(d),
        no_dup(e),
        forall|t: int| 0 <= t < e.len() ==> d.contains(#[trigger] e[t]),
        forall|q: int| 0 <= q < d.len() && !e.contains(#[trigger] d[q]) ==> g(d[q]) == 0,
    ensures
        gsum(d, g) == gsum(e, g),
    decreases d.len(),
{
    if d.len() == 0 {
        if e.len() > 0 {
            assert(d.contains(e[0]));
        }
    } else {
        let x = d.last();
        let d2 = d.drop_last();
        assert forall|a: int, b: int| 0 <= a < d2.len() && 0 <= b < d2.len() && a != b implies #[trigger] d2[a] != #[trigger] d2[b] by {
            assert(d2[a] == d[a] && d2[b] == d[b]);
        }
        if e.contains(x) {
            let r = choose|r: int| 0 <= r < e.len() && e[r] == x;
            let e2 = e.remove(r);
            lemma_gsum_remove(e, g, r);
            assert forall|a: int, b: int| 0 <= a < e2.len() && 0 <= b < e2.len() && a != b implies #[trigger] e2[a] != #[trigger] e2[b] by {
                let a1 = if a < r { a } else { a + 1 };
                let b1 = if b < r { b } else { b + 1 };
                assert(e2[a] == e[a1] && e2[b] == e[b1]);
            }
            assert forall|t: int| 0 <= t < e2.len() implies d2.contains(#[trigger] e2[t]) by {
                let t1 = if t < r { t } else { t + 1 };
                assert(e2[t] == e[t1]);
                assert(d.contains(e[t1]));
                let q = choose|q: int| 0 <= q < d.len() && d[q] == e[t1];
                assert(e[t1] != x);
                assert(q != d.len() - 1);
                assert(d2[q] == e2[t]);
            }
            assert forall|q: int| 0 <= q < d2.len() && !e2.contains(#[trigger] d2[q]) implies g(d2[q]) == 0 by {
                assert(d2[q] == d[q]);
                assert(d[q] != x);
                if e.contains(d[q]) {
                    let t = choose|t: int| 0 <= t < e.len() && e[t] == d[q];
                    assert(t != r);
                    let t2 = if t < r { t } else { t - 1 };
                    assert(e2[t2] == d[q]);
                }
            }
            lemma_gsum_reindex(d2, e2, g);
        } else {
            assert(g(x) == 0) by {
                assert(d[d.len() - 1] == x);
            }
            assert forall|t: int| 0 <= t < e.len() implies d2.contains(#[trigger] e[t]) by {
                assert(d.contains(e[t]));
                let q = choose|q: int| 0 <= q < d.len() && d[q] == e[t];
                assert(q != d.len() - 1);
                assert(d2[q] == e[t]);
            }
            assert forall|q: int| 0 <= q < d2.len() && !e.contains(#[trigger] d2[q]) implies g(d2[q]) == 0 by {
                assert(d2[q] == d[q]);
            }
            lemma_gsum_reindex(d2, e, g);
        }
    }
}

/// Adding a multiple of `2^k` leaves the bits below `k` alone.
#[verifier::spinoff_prover]
proof fn lemma_bit_plus(t: nat, a: nat, k: nat, i: nat)
    requires
        i < k,
    ensures
        bit(t + a * pow2(k), i) == bit(t, i),
{
    lemma_pow2_pos(i);
    lemma_pow2_adds(i, (k - i) as nat);
    let p = pow2(i) as int;
    let q = pow2((k - i) as nat) as int;
    assert(i + (k - i) as nat == k);
    assert(pow2(k) == p * q);
    assert(q % 2 == 0) by {
        lemma_pow2_unfold((k - i) as nat);
    }
    let m = (a as int) * q;
    assert((t + a * pow2(k)) as int == (t as int) + m * p) by {
        vstd::arithmetic::mul::lemma_mul_is_associative(a as int, q, p);
    }
    lemma_div_plus_mult(t as int, m, p);
    let x = (t as int) / p;
    assert(m % 2 == 0) by {
        vstd::arithmetic::mul::lemma_mul_is_commutative(a as int, q);
        lemma_mod_multiples_vanish_even(a as int, q);
    }
    lemma_add_mod_noop(x, m, 2);
    lemma_mod_twice(x, 2);
    assert((x + m) % 2 == x % 2);
}

proof fn lemma_mod_multiples_vanish_even(a: int, q: int)
    requires
        q % 2 == 0,
        a >= 0,
        q >= 0,
    ensures
        (a * q) % 2 == 0,
{
    let h = q / 2;
    lemma_fundamental_div_mod(q, 2);
    assert(q == 2 * h);
    assert(a * q == (a * h) * 2) by {
        vstd::arithmetic::mul::lemma_mul_is_associative(a, 2, h);
        vstd::arithmetic::mul::lemma_mul_is_commutative(a, 2);
        vstd::arithmetic::mul::lemma_mul_is_associative(2, a, h);
        vstd::arithmetic::mul::lemma_mul_is_commutative(2, a * h);
    }
    lemma_fundamental_div_mod_converse(a * q, 2, a * h, 0);
}

proof fn lemma_div_plus_mult(t: int, m: int, p: int)
    requires
        p > 0,
        t >= 0,
        m >= 0,
    ensures
        (t + m * p) / p == t / p + m,
{
    lemma_fundamental_div_mod(t, p);
    let q = t / p;
    let r = t % p;
    assert(t + m * p == (q + m) * p + r) by (nonlinear_arith)
        requires
            t == p * q + r,
    ;
    lemma_mod_pos_bound(t, p);
    lemma_fundamental_div_mod_converse(t + m * p, p, q + m, r);
}


/// `sum_{t < n} f(t)` is unchanged by changing `f` off `[0, n)`.
proof fn lemma_isum_ext(f: spec_fn(int) -> int, g: spec_fn(int) -> int, n: nat)
    requires
        forall|t: int| 0 <= t < n ==> #[trigger] f(t) == g(t),
    ensures
        isum(f, n) == isum(g, n),
    decreases n,
{
    if n > 0 {
        lemma_isum_ext(f, g, (n - 1) as nat);
    }
}

/// A sum over `a + b` terms splits at `a`.
proof fn lemma_isum_split(f: spec_fn(int) -> int, a: nat, b: nat)
    ensures
        isum(f, a + b) == isum(f, a) + isum(|t: int| f(t + a), b),
    decreases b,
{
    if b > 0 {
        lemma_isum_split(f, a, (b - 1) as nat);
        assert((a + b - 1) as nat == a + (b - 1) as nat);
    }
}

/// A constant factor comes out of a sum.
proof fn lemma_isum_scale(f: spec_fn(int) -> int, c: int, n: nat)
    ensures
        isum(|t: int| f(t) * c, n) == isum(f, n) * c,
    decreases n,
{
    if n > 0 {
        lemma_isum_scale(f, c, (n - 1) as nat);
        let s = isum(f, (n - 1) as nat);
        assert((s + f(n - 1)) * c == s * c + f(n - 1) * c) by (nonlinear_arith);
    }
}

/// `prod_{i < n} h(i, c_i)`.
pub open spec fn cprod(h: spec_fn(int, usize) -> int, c: Seq<usize>, n: nat) -> int
    decreases n,
{
    if n == 0 {
        1
    } else {
        cprod(h, c, (n - 1) as nat) * h(n - 1, c[n - 1])
    }
}

/// `prod_{i < n} (h(i, 0) + h(i, 1))`.
pub open spec fn pprod(h: spec_fn(int, usize) -> int, n: nat) -> int
    decreases n,
{
    if n == 0 {
        1
    } else {
        pprod(h, (n - 1) as nat) * (h(n - 1, 0) + h(n - 1, 1))
    }
}

proof fn lemma_cprod_prefix(h: spec_fn(int, usize) -> int, c: Seq<usize>, c2: Seq<usize>, n: nat)
    requires
        n <= c.len(),
        n <= c2.len(),
        forall|i: int| 0 <= i < n ==> c[i] == c2[i],
    ensures
        cprod(h, c, n) == cprod(h, c2, n),
    decreases n,
{
    if n > 0 {
        lemma_cprod_prefix(h, c, c2, (n - 1) as nat);
    }
}

/// The first `n - 1` bits of a point of the lower half of `{0,1}^n`, then
/// a zero; of the upper half, then a one.
proof fn lemma_cube_halves(t: nat, n: nat)
    requires
        n >= 1,
        t < pow2((n - 1) as nat),
    ensures
        cube_point(t, n) == cube_point(t, (n - 1) as nat).push(0),
        cube_point(t + pow2((n - 1) as nat), n) == cube_point(t, (n - 1) as nat).push(1),
{
    let k = (n - 1) as nat;
    let p = pow2(k) as int;
    lemma_pow2_pos(k);
    lemma_fundamental_div_mod_converse(t as int, p, 0, t as int);
    assert(bit(t, k) == 0);
    lemma_div_plus_mult(t as int, 1, p);
    assert(((t + pow2(k)) as int) / p == 1);
    assert(bit(t + pow2(k), k) == 1);
    assert forall|i: int| 0 <= i < k implies #[trigger] bit(t + pow2(k), i as nat) == bit(t, i as nat) by {
        lemma_bit_plus(t, 1, k, i as nat);
        assert(t + 1 * pow2(k) == t + pow2(k));
    }
    assert(cube_point(t, n) =~= cube_point(t, k).push(0));
    assert(cube_point(t + pow2(k), n) =~= cube_point(t, k).push(1));
}

/// Law: summing a coordinate-wise product over `{0,1}^n` multiplies the
/// coordinate sums.
#[verifier::spinoff_prover]
pub proof fn lemma_cube_sum_product(h: spec_fn(int, usize) -> int, n: nat)
    ensures
        isum(|t: int| cprod(h, cube_point(t as nat, n), n), pow2(n)) == pprod(h, n),
    decreases n,
{
    let f = |t: int| cprod(h, cube_point(t as nat, n), n);
    if n == 0 {
        assert(pow2(0) == 1) by {
            lemma2_to64();
        }
        assert(isum(f, 1) == isum(f, 0) + f(0));
    } else {
        let k = (n - 1) as nat;
        let half = pow2(k);
        lemma_pow2_unfold(n);
        assert(pow2(n) == half + half);
        let fk = |t: int| cprod(h, cube_point(t as nat, k), k);
        lemma_cube_sum_product(h, k);
        lemma_isum_split(f, half, half);
        let lo = |t: int| fk(t) * h(k as int, 0);
        let hi = |t: int| fk(t) * h(k as int, 1);
        assert forall|t: int| 0 <= t < half implies #[trigger] f(t) == lo(t) by {
            lemma_cube_halves(t as nat, n);
            let c = cube_point(t as nat, k);
            lemma_cprod_prefix(h, c.push(0), c, k);
            assert(c.push(0)[k as int] == 0);
        }
        assert forall|t: int| 0 <= t < half implies f(t + half) == #[trigger] hi(t) by {
            lemma_cube_halves(t as nat, n);
            let c = cube_point(t as nat, k);
            lemma_cprod_prefix(h, c.push(1), c, k);
            assert(c.push(1)[k as int] == 1);
            assert((t + half) as nat == t as nat + pow2(k));
        }
        lemma_isum_ext(f, lo, half);
        lemma_isum_ext(|t: int| f(t + half), hi, half);
        lemma_isum_scale(fk, h(k as int, 0), half);
        lemma_isum_scale(fk, h(k as int, 1), half);
        let s = isum(fk, half);
        assert(s * h(k as int, 0) + s * h(k as int, 1) == s * (h(k as int, 0) + h(k as int, 1))) by (nonlinear_arith);
    }
}


/// The entries of `c` up to `n` are bits.
pub open spec fn boolean(c: Seq<usize>, n: nat) -> bool {
    n <= c.len() && forall|i: int| 0 <= i < n ==> #[trigger] c[i] <= 1
}

/// A hypercube point as integer coordinates, zero-extended to `n2`
/// variables.
pub open spec fn cube_coords(j: nat, n1: nat, n2: nat) -> Seq<int> {
    pad(cube_point(j, n1), n2).map_values(|x: usize| x as int)
}

/// The coordinate factor of the Lagrange polynomial of `bp` times the
/// monomial at `bb`: `lag1(bp_i, s) * bb_i^s`.
pub open spec fn lag_mono(bp: Seq<usize>, bb: Seq<usize>) -> spec_fn(int, usize) -> int {
    |i: int, s: usize| lag1(bp[i], s) * pow(bb[i] as int, s as nat)
}

proof fn lemma_cube_boolean(j: nat, n: nat)
    ensures
        boolean(cube_point(j, n), n),
{
    assert forall|i: int| 0 <= i < n implies #[trigger] cube_point(j, n)[i] <= 1 by {
        assert(cube_point(j, n)[i] == bit(j, i as nat));
    }
}

/// On a zero-extended boolean exponent vector, the Lagrange coefficient
/// times the monomial is the product of the coordinate factors.
proof fn lemma_lag_mono_prefix(bp: Seq<usize>, bb: Seq<usize>, c: Seq<usize>, n1: nat, n2: nat, n: nat)
    requires
        n <= n1 <= n2,
        boolean(c, n1),
        c.len() == n1,
        bb.len() == n1,
    ensures
        lag_prefix(bp, pad(c, n2), n) * mono_val(pad(c, n2), pad(bb, n2).map_values(|x: usize| x as int), n)
            == cprod(lag_mono(bp, bb), c, n),
    decreases n,
{
    if n > 0 {
        let t = (n - 1) as nat;
        lemma_lag_mono_prefix(bp, bb, c, n1, n2, t);
        let k = pad(c, n2);
        let y = pad(bb, n2).map_values(|x: usize| x as int);
        assert(entry(k, t as int) == c[t as int]);
        assert(k[t as int] == c[t as int]);
        assert(y[t as int] == bb[t as int] as int);
        let a = lag_prefix(bp, k, t);
        let b = mono_val(k, y, t);
        let x = lag1(bp[t as int], c[t as int]);
        let z = pow(bb[t as int] as int, c[t as int] as nat);
        assert((a * x) * (b * z) == (a * b) * (x * z)) by (nonlinear_arith);
    }
}

/// Coordinates past `n1` hold exponent zero and add factors of one.
proof fn lemma_mono_tail(c: Seq<usize>, y: Seq<int>, n1: nat, n2: nat, n: nat)
    requires
        n1 <= n <= n2,
        c.len() == n1,
    ensures
        mono_val(pad(c, n2), y, n) == mono_val(pad(c, n2), y, n1),
    decreases n,
{
    if n > n1 {
        let t = (n - 1) as nat;
        lemma_mono_tail(c, y, n1, n2, t);
        assert(pad(c, n2)[t as int] == 0);
        lemma_pow0(y[t as int]);
    }
}

/// The Lagrange coefficient of the hypercube point `bp` at the
/// zero-extended boolean exponents `c`, times the monomial of `c` at the
/// hypercube point `bb`, is the product of the coordinate factors.
proof fn lemma_term_product(bp: Seq<usize>, bb: Seq<usize>, c: Seq<usize>, n1: nat, n2: nat)
    requires
        n1 <= n2,
        boolean(c, n1),
        c.len() == n1,
        bb.len() == n1,
    ensures
        lag_coeff(bp, pad(c, n2), n1, n2) * mono_val(pad(c, n2), pad(bb, n2).map_values(|x: usize| x as int), n2)
            == cprod(lag_mono(bp, bb), c, n1),
{
    let k = pad(c, n2);
    assert(!(exists|i: int| 0 <= i < n1 && entry(k, i) >= 2)) by {
        assert forall|i: int| 0 <= i < n1 implies entry(k, i) < 2 by {
            assert(k[i] == c[i]);
        }
    }
    assert(!(exists|i: int| n1 <= i < n2 && entry(k, i) != 0));
    lemma_mono_tail(c, pad(bb, n2).map_values(|x: usize| x as int), n1, n2, n2);
    lemma_lag_mono_prefix(bp, bb, c, n1, n2, n1);
}

/// Each coordinate contributes one where the two points agree, zero
/// elsewhere.
proof fn lemma_pprod_agree(bp: Seq<usize>, bb: Seq<usize>, n: nat)
    requires
        boolean(bp, n),
        boolean(bb, n),
    ensures
        pprod(lag_mono(bp, bb), n) == if bp.take(n as int) == bb.take(n as int) { 1int } else { 0int },
    decreases n,
{
    if n == 0 {
        assert(bp.take(0) =~= bb.take(0));
    } else {
        let t = (n - 1) as nat;
        lemma_pprod_agree(bp, bb, t);
        let h = lag_mono(bp, bb);
        lemma_pow0(bb[t as int] as int);
        lemma_pow1(bb[t as int] as int);
        assert(h(t as int, 0) + h(t as int, 1) == if bp[t as int] == bb[t as int] { 1int } else { 0int });
        if bp.take(n as int) == bb.take(n as int) {
            assert(bp.take(t as int) =~= bp.take(n as int).take(t as int));
            assert(bb.take(t as int) =~= bb.take(n as int).take(t as int));
            assert(bp[t as int] == bp.take(n as int)[t as int]);
        } else if bp.take(t as int) == bb.take(t as int) {
            if bp[t as int] == bb[t as int] {
                assert(bp.take(n as int) =~= bb.take(n as int)) by {
                    assert forall|i: int| 0 <= i < n implies bp.take(n as int)[i] == bb.take(n as int)[i] by {
                        if i < t {
                            assert(bp.take(t as int)[i] == bb.take(t as int)[i]);
                        }
                    }
                }
            }
        } else {
            assert(pprod(h, t) == 0);
        }
    }
}

/// Law: the Lagrange polynomial of hypercube point `jp`, evaluated at
/// hypercube point `j`, is one when `jp == j` and zero elsewhere, summed
/// as a coefficient form over the zero-extended boolean exponents.
#[verifier::spinoff_prover]
pub proof fn lemma_cube_delta(jp: nat, j: nat, n1: nat, n2: nat)
    requires
        n1 <= n2,
        jp < pow2(n1),
        j < pow2(n1),
    ensures
        isum(
            |t: int| lag_coeff(cube_point(jp, n1), pad(cube_point(t as nat, n1), n2), n1, n2)
                * mono_val(pad(cube_point(t as nat, n1), n2), cube_coords(j, n1, n2), n2),
            pow2(n1),
        ) == if jp == j { 1int } else { 0int },
{
    let bp = cube_point(jp, n1);
    let bb = cube_point(j, n1);
    let h = lag_mono(bp, bb);
    let f = |t: int| lag_coeff(bp, pad(cube_point(t as nat, n1), n2), n1, n2)
        * mono_val(pad(cube_point(t as nat, n1), n2), cube_coords(j, n1, n2), n2);
    let g = |t: int| cprod(h, cube_point(t as nat, n1), n1);
    assert forall|t: int| 0 <= t < pow2(n1) implies #[trigger] f(t) == g(t) by {
        let c = cube_point(t as nat, n1);
        lemma_cube_boolean(t as nat, n1);
        lemma_term_product(bp, bb, c, n1, n2);
    }
    lemma_isum_ext(f, g, pow2(n1));
    lemma_cube_sum_product(h, n1);
    lemma_cube_boolean(jp, n1);
    lemma_cube_boolean(j, n1);
    lemma_pprod_agree(bp, bb, n1);
    lemma_hypercube_roundtrip(jp, n1);
    lemma_hypercube_roundtrip(j, n1);
    assert(bp.take(n1 as int) =~= bp);
    assert(bb.take(n1 as int) =~= bb);
}


/// A boolean vector is the hypercube point at the position its bits spell.
#[verifier::spinoff_prover]
proof fn lemma_bits_cube(c: Seq<usize>, n: nat)
    requires
        c.len() == n,
        boolean(c, n),
    ensures
        bits_value(c) < pow2(n),
        cube_point(bits_value(c), n) == c,
    decreases n,
{
    if n == 0 {
        assert(pow2(0) == 1) by {
            lemma2_to64();
        }
        assert(cube_point(0, 0) =~= c);
    } else {
        let k = (n - 1) as nat;
        let c2 = c.drop_last();
        assert(boolean(c2, k)) by {
            assert forall|i: int| 0 <= i < k implies #[trigger] c2[i] <= 1 by {
                assert(c2[i] == c[i]);
            }
        }
        lemma_bits_cube(c2, k);
        let v = bits_value(c2);
        lemma_cube_halves(v, n);
        lemma_pow2_unfold(n);
        assert(c[k as int] <= 1);
        assert((c.len() - 1) as nat == k);
        assert(bits_value(c) == v + (c.last() as nat) * pow2(k));
        if c.last() == 0 {
            assert(bits_value(c) == v);
            assert(c =~= c2.push(0));
        } else {
            assert(c.last() == 1);
            assert(bits_value(c) == v + pow2(k));
            assert(c =~= c2.push(1));
        }
    }
}

/// Bits up to `n1` and zeros after sum to at most `n1`.
proof fn lemma_seq_sum_bits(s: Seq<usize>, n1: nat)
    requires
        forall|i: int| 0 <= i < s.len() ==> #[trigger] s[i] <= (if i < n1 { 1usize } else { 0usize }),
    ensures
        seq_sum(s) <= n1,
    decreases s.len(),
{
    if s.len() > 0 {
        let t = s.drop_first();
        let n2 = if n1 > 0 { (n1 - 1) as nat } else { 0 };
        assert forall|i: int| 0 <= i < t.len() implies #[trigger] t[i] <= (if i < n2 { 1usize } else { 0usize }) by {
            assert(t[i] == s[i + 1]);
        }
        lemma_seq_sum_bits(t, n2);
        assert(s[0] <= (if 0 < n1 { 1usize } else { 0usize }));
    }
}

/// `gsum` is the index sum over the entries.
proof fn lemma_gsum_isum(d: Seq<Seq<usize>>, g: spec_fn(Seq<usize>) -> int)
    ensures
        gsum(d, g) == isum(|q: int| g(d[q]), d.len()),
    decreases d.len(),
{
    if d.len() > 0 {
        let d2 = d.drop_last();
        lemma_gsum_isum(d2, g);
        lemma_isum_ext(|q: int| g(d2[q]), |q: int| g(d[q]), d2.len());
    }
}

/// The zero-extended points of `{0,1}^n1`, in hypercube order.
pub open spec fn cube_exps(n1: nat, n2: nat) -> Seq<Seq<usize>> {
    Seq::new(pow2(n1), |t: int| pad(cube_point(t as nat, n1), n2))
}

/// Law: over a full enumeration of the multi-indices of `n2` variables and
/// degree at most `m2 >= n1`, the coefficients of the Lagrange polynomial
/// of hypercube point `jp`, weighted by the monomials at hypercube point
/// `j`, sum to one when `jp == j` and to zero elsewhere.
#[verifier::spinoff_prover]
pub proof fn lemma_lagrange_delta_enumerated(d: Seq<Seq<usize>>, jp: nat, j: nat, n1: nat, n2: nat, m2: nat)
    requires
        enumerates(d, n2, m2),
        n1 <= n2,
        n1 <= m2,
        jp < pow2(n1),
        j < pow2(n1),
    ensures
        isum(|q: int| lag_coeff(cube_point(jp, n1), d[q], n1, n2) * mono_val(d[q], cube_coords(j, n1, n2), n2), d.len())
            == if jp == j { 1int } else { 0int },
{
    let bp = cube_point(jp, n1);
    let y = cube_coords(j, n1, n2);
    let g = |k: Seq<usize>| lag_coeff(bp, k, n1, n2) * mono_val(k, y, n2);
    let e = cube_exps(n1, n2);
    assert(no_dup(d)) by {
        assert forall|a: int, b: int| 0 <= a < d.len() && 0 <= b < d.len() && a != b implies #[trigger] d[a] != #[trigger] d[b] by {
            lemma_grlex_irrefl(d[a]);
            if a < b {
                assert(grlex_lt(d[a], d[b]));
            } else {
                assert(grlex_lt(d[b], d[a]));
            }
        }
    }
    assert(no_dup(e)) by {
        assert forall|a: int, b: int| 0 <= a < e.len() && 0 <= b < e.len() && a != b implies #[trigger] e[a] != #[trigger] e[b] by {
            if e[a] == e[b] {
                let ca = cube_point(a as nat, n1);
                let cb = cube_point(b as nat, n1);
                assert(ca =~= cb) by {
                    assert forall|i: int| 0 <= i < n1 implies ca[i] == cb[i] by {
                        assert(e[a][i] == ca[i] && e[b][i] == cb[i]);
                    }
                }
                lemma_hypercube_roundtrip(a as nat, n1);
                lemma_hypercube_roundtrip(b as nat, n1);
            }
        }
    }
    assert forall|t: int| 0 <= t < e.len() implies d.contains(#[trigger] e[t]) by {
        let c = cube_point(t as nat, n1);
        lemma_cube_boolean(t as nat, n1);
        assert forall|i: int| 0 <= i < e[t].len() implies #[trigger] e[t][i] <= (if i < n1 { 1usize } else { 0usize }) by {
            if i < n1 {
                assert(e[t][i] == c[i]);
            }
        }
        lemma_seq_sum_bits(e[t], n1);
        assert(is_multi_index(e[t], n2, m2));
        let q = choose|q: int| 0 <= q < d.len() && #[trigger] d[q] == e[t];
        assert(d[q] == e[t]);
    }
    assert forall|q: int| 0 <= q < d.len() && !e.contains(#[trigger] d[q]) implies g(d[q]) == 0 by {
        let k = d[q];
        assert(is_multi_index(k, n2, m2));
        if lag_coeff(bp, k, n1, n2) != 0 {
            let c = k.take(n1 as int);
            assert(boolean(c, n1)) by {
                assert forall|i: int| 0 <= i < n1 implies #[trigger] c[i] <= 1 by {
                    assert(entry(k, i) < 2);
                }
            }
            lemma_bits_cube(c, n1);
            let t = bits_value(c);
            assert(e[t as int] =~= k) by {
                assert forall|i: int| 0 <= i < n2 implies e[t as int][i] == k[i] by {
                    if i >= n1 {
                        assert(entry(k, i) == 0);
                    }
                }
            }
            assert(false);
        }
    }
    lemma_gsum_reindex(d, e, g);
    lemma_gsum_isum(d, g);
    lemma_gsum_isum(e, g);
    lemma_isum_ext(|q: int| g(d[q]), |q: int| lag_coeff(bp, d[q], n1, n2) * mono_val(d[q], y, n2), d.len());
    lemma_isum_ext(
        |t: int| g(e[t]),
        |t: int| lag_coeff(bp, pad(cube_point(t as nat, n1), n2), n1, n2)
            * mono_val(pad(cube_point(t as nat, n1), n2), cube_coords(j, n1, n2), n2),
        pow2(n1),
    );
    lemma_cube_delta(jp, j, n1, n2);
}


proof fn lemma_isum_add(f: spec_fn(int) -> int, g: spec_fn(int) -> int, n: nat)
    ensures
        isum(|t: int| f(t) + g(t), n) == isum(f, n) + isum(g, n),
    decreases n,
{
    if n > 0 {
        lemma_isum_add(f, g, (n - 1) as nat);
    }
}

/// Double sums may be taken in either order.
proof fn lemma_isum_swap(f: spec_fn(int, int) -> int, nj: nat, nq: nat)
    ensures
        isum(|q: int| isum(|a: int| f(a, q), nj), nq) == isum(|a: int| isum(|q: int| f(a, q), nq), nj),
    decreases nq,
{
    if nq == 0 {
        let z = |a: int| isum(|q: int| f(a, q), 0);
        assert forall|a: int| 0 <= a < nj implies #[trigger] z(a) == (|a: int| 0int)(a) by {}
        lemma_isum_ext(z, |a: int| 0int, nj);
        lemma_isum_scale(|a: int| 0int, 0, nj);
        lemma_isum_ext(|a: int| (|a: int| 0int)(a) * 0, |a: int| 0int, nj);
    } else {
        let k = (nq - 1) as nat;
        lemma_isum_swap(f, nj, k);
        let u = |a: int| isum(|q: int| f(a, q), k);
        let v = |a: int| f(a, k as int);
        lemma_isum_add(u, v, nj);
        let w = |a: int| isum(|q: int| f(a, q), nq);
        assert forall|a: int| 0 <= a < nj implies #[trigger] w(a) == u(a) + v(a) by {}
        lemma_isum_ext(w, |t: int| u(t) + v(t), nj);
    }
}

/// Only the term at `j` survives a sum weighted by `jp == j`.
proof fn lemma_isum_delta(e: spec_fn(int) -> int, j: int, n: nat)
    requires
        0 <= j < n,
    ensures
        isum(|a: int| (if a == j { 1int } else { 0int }) * e(a), n) == e(j),
    decreases n,
{
    let f = |a: int| (if a == j { 1int } else { 0int }) * e(a);
    if n - 1 == j {
        lemma_isum_zero(f, (n - 1) as nat);
    } else {
        lemma_isum_delta(e, j, (n - 1) as nat);
    }
}

proof fn lemma_isum_zero(f: spec_fn(int) -> int, n: nat)
    requires
        forall|t: int| 0 <= t < n ==> #[trigger] f(t) == 0,
    ensures
        isum(f, n) == 0,
    decreases n,
{
    if n > 0 {
        lemma_isum_zero(f, (n - 1) as nat);
    }
}

/// Sums that agree term by term modulo `m` agree modulo `m`.
proof fn lemma_isum_mod(f: spec_fn(int) -> int, g: spec_fn(int) -> int, n: nat, m: int)
    requires
        m > 0,
        forall|t: int| 0 <= t < n ==> #[trigger] f(t) % m == g(t) % m,
    ensures
        isum(f, n) % m == isum(g, n) % m,
    decreases n,
{
    if n > 0 {
        let k = (n - 1) as nat;
        lemma_isum_mod(f, g, k, m);
        lemma_add_mod_noop(isum(f, k), f(k as int), m);
        lemma_add_mod_noop(isum(g, k), g(k as int), m);
    }
}

/// The Lagrange expansion as an index sum over the table.
proof fn lemma_lag_sum_isum(ps: Seq<PolyV>, n1: nat, n2: nat, k: Seq<usize>, env: Env, count: nat)
    ensures
        lag_sum(ps, n1, n2, k, env, count)
            == isum(|a: int| lag_coeff(cube_point(a as nat, n1), k, n1, n2) * eval(ps[a], env), count),
    decreases count,
{
    if count > 0 {
        lemma_lag_sum_isum(ps, n1, n2, k, env, (count - 1) as nat);
    }
}

/// Law: lifting the evaluation table of a multilinear extension of `n1`
/// variables to the coefficient form of `n2 >= n1` variables and degree
/// `m2 >= n1` interpolates the table: the coefficient form, evaluated at
/// hypercube point `j` (zero in the variables past `n1`), gives back table
/// entry `j`.
#[verifier::spinoff_prover]
pub proof fn lemma_mle_lift_interpolates(n1: nat, n2: nat, m2: nat, ps: Seq<PolyV>, out: Seq<PolyV>, j: nat, env: Env)
    requires
        liftable(TypV::Mle(n1), TypV::VPoly(n2, m2)),
        n1 <= m2,
        m2 <= usize::MAX,
        ps.len() == pow2(n1),
        lifted(TypV::Mle(n1), TypV::VPoly(n2, m2), ps, out),
        enumerates(mi_seq(n2, m2), n2, m2),
        j < pow2(n1),
    ensures
        isum(|q: int| eval(out[q], env) * mono_val(mi_seq(n2, m2)[q], cube_coords(j, n1, n2), n2), out.len())
            % (modulus() as int) == eval(ps[j as int], env),
{
    let d = mi_seq(n2, m2);
    let md = modulus() as int;
    let y = cube_coords(j, n1, n2);
    let nn = pow2(n1);
    let nq = out.len();
    lemma_enumeration_len(d, n2, m2);
    assert(nq == d.len());
    let tq = |q: int| mono_val(d[q], y, n2);
    let c = |a: int, q: int| lag_coeff(cube_point(a as nat, n1), d[q], n1, n2);
    let e = |a: int| eval(ps[a], env) as int;
    let lq = |q: int| lag_sum(ps, n1, n2, d[q], env, nn);
    let lhs = |q: int| eval(out[q], env) * mono_val(d[q], y, n2);
    let raw = |q: int| lq(q) * tq(q);
    // Reduce each coefficient's residue back to the unreduced expansion.
    assert forall|q: int| 0 <= q < nq implies #[trigger] lhs(q) % md == raw(q) % md by {
        assert(eval(out[q], env) == lq(q) % md);
        lemma_mul_mod_noop_left(lq(q), tq(q), md);
    }
    lemma_isum_mod(lhs, raw, nq, md);
    // Expand each coefficient over the table and swap the sums.
    let f = |a: int, q: int| c(a, q) * e(a) * tq(q);
    assert forall|q: int| 0 <= q < nq implies #[trigger] raw(q) == isum(|a: int| f(a, q), nn) by {
        lemma_lag_sum_isum(ps, n1, n2, d[q], env, nn);
        let inner = |a: int| c(a, q) * e(a);
        lemma_isum_ext(|a: int| lag_coeff(cube_point(a as nat, n1), d[q], n1, n2) * eval(ps[a], env), inner, nn);
        lemma_isum_scale(inner, tq(q), nn);
        lemma_isum_ext(|a: int| inner(a) * tq(q), |a: int| f(a, q), nn);
    }
    lemma_isum_ext(raw, |q: int| isum(|a: int| f(a, q), nn), nq);
    lemma_isum_swap(f, nn, nq);
    let delta = |a: int| (if a == j { 1int } else { 0int }) * e(a);
    let col = |a: int| isum(|q: int| f(a, q), nq);
    assert forall|a: int| 0 <= a < nn implies #[trigger] col(a) == delta(a) by {
        let w = |q: int| c(a, q) * tq(q);
        assert forall|q: int| 0 <= q < nq implies #[trigger] f(a, q) == w(q) * e(a) by {
            assert(c(a, q) * e(a) * tq(q) == c(a, q) * tq(q) * e(a)) by (nonlinear_arith);
        }
        lemma_isum_ext(|q: int| f(a, q), |q: int| w(q) * e(a), nq);
        lemma_isum_scale(w, e(a), nq);
        lemma_lagrange_delta_enumerated(d, a as nat, j, n1, n2, m2);
        lemma_isum_ext(w, |q: int| lag_coeff(cube_point(a as nat, n1), d[q], n1, n2) * mono_val(d[q], cube_coords(j, n1, n2), n2), nq);
    }
    lemma_isum_ext(col, delta, nn);
    lemma_isum_delta(e, j as int, nn);
    crate::polyv::lemma_eval_lt(ps[j as int], env);
    lemma_small_mod(eval(ps[j as int], env), modulus());
}

} // verus!

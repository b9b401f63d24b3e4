//! Slot enumerations for polynomial-typed values.
//!
//! * `VPoly(n, m)` has one slot per multi-index `k` with `|k| <= m`, listed
//!   in graded-lex order ([`multi_indices`]); there are `C(n + m, n)` of them.
//! * `Mle(n)` has one slot per hypercube point `b` in `{0,1}^n`, listed with
//!   bit 0 innermost ([`hypercube`]).
use vstd::prelude::*;
use vstd::arithmetic::div_mod::*;
use vstd::arithmetic::mul::*;
use vstd::arithmetic::power2::*;
use vstd::arithmetic::power::pow;

use crate::field::{modulus, Fe};
use crate::poly::{fe_pow, Polynomial};
use crate::poly_source::pviews;
use crate::polyv::{eval, Env, PolyV};

verus! {

/// Binomial coefficient `C(n, k)` by Pascal's rule.
pub open spec fn binom(n: nat, k: nat) -> nat
    decreases n,
{
    if k == 0 {
        1
    } else if n == 0 {
        0
    } else {
        binom((n - 1) as nat, (k - 1) as nat) + binom((n - 1) as nat, k)
    }
}

/// `C(n, k) = 0` once `k > n`.
pub proof fn lemma_binom_zero(n: nat, k: nat)
    requires
        k > n,
    ensures
        binom(n, k) == 0,
    decreases n,
{
    if n > 0 {
        lemma_binom_zero((n - 1) as nat, (k - 1) as nat);
        lemma_binom_zero((n - 1) as nat, k);
    }
}

/// `C(n, n) = 1`.
pub proof fn lemma_binom_diag(n: nat)
    ensures
        binom(n, n) == 1,
    decreases n,
{
    if n > 0 {
        lemma_binom_diag((n - 1) as nat);
        lemma_binom_zero((n - 1) as nat, n);
    }
}

/// `C(n, 1) = n`.
pub proof fn lemma_binom_one(n: nat)
    ensures
        binom(n, 1) == n,
    decreases n,
{
    if n > 0 {
        lemma_binom_one((n - 1) as nat);
        assert(binom((n - 1) as nat, 0) == 1);
    }
}

/// Symmetry: `C(n, k) = C(n, n - k)`.
pub proof fn lemma_binom_symmetric(n: nat, k: nat)
    requires
        k <= n,
    ensures
        binom(n, k) == binom(n, (n - k) as nat),
    decreases n,
{
    if k == 0 {
        lemma_binom_diag(n);
    } else if k == n {
        lemma_binom_diag(n);
    } else {
        lemma_binom_symmetric((n - 1) as nat, (k - 1) as nat);
        lemma_binom_symmetric((n - 1) as nat, k);
        assert(binom(n, (n - k) as nat) == binom((n - 1) as nat, (n - k - 1) as nat) + binom(
            (n - 1) as nat,
            (n - k) as nat,
        ));
    }
}

/// Ratio step: `C(n, i + 1) * (i + 1) = C(n, i) * (n - i)` for `i < n`.
pub proof fn lemma_binom_step(n: nat, i: nat)
    requires
        i < n,
    ensures
        binom(n, i + 1) * (i + 1) == binom(n, i) * (n - i),
    decreases n,
{
    if i == 0 {
        lemma_binom_one(n);
        assert(binom(n, 0) == 1);
        assert(binom(n, 1) * 1 == binom(n, 0) * n);
    } else {
        let a = binom((n - 1) as nat, i);
        let b = binom((n - 1) as nat, i + 1);
        let c = binom((n - 1) as nat, (i - 1) as nat);
        if i + 1 < n {
            lemma_binom_step((n - 1) as nat, i);
            assert(b * (i + 1) == a * (n - 1 - i));
        } else {
            lemma_binom_zero((n - 1) as nat, i + 1);
            assert(b == 0);
            assert(n - 1 - i == 0);
            assert(b * (i + 1) == a * (n - 1 - i)) by (nonlinear_arith)
                requires
                    b == 0,
                    n - 1 - i == 0,
            ;
        }
        lemma_binom_step((n - 1) as nat, (i - 1) as nat);
        assert(binom(n, i + 1) == a + b);
        assert(binom(n, i) == c + a);
        assert(b * (i + 1) == a * (n - 1 - i));
        assert(a * i == c * (n - 1 - (i - 1)));
        assert((a + b) * (i + 1) == (c + a) * (n - i)) by (nonlinear_arith)
            requires
                b * (i + 1) == a * (n - 1 - i),
                a * i == c * (n - i),
                i < n,
        ;
        assert(binom(n, i + 1) * (i + 1) == (a + b) * (i + 1));
        assert(binom(n, i) * (n - i) == (c + a) * (n - i));
    }
}

/// `C(n, i) <= C(n, i + 1)` while `i + 1 <= n - (i + 1)`.
proof fn lemma_binom_grows(n: nat, i: nat)
    requires
        2 * (i + 1) <= n,
    ensures
        binom(n, i) <= binom(n, i + 1),
{
    lemma_binom_step(n, i);
    let x = binom(n, i);
    let y = binom(n, i + 1);
    assert(x <= y) by (nonlinear_arith)
        requires
            y * (i + 1) == x * (n - i),
            i + 1 <= n - i,
    ;
}

/// `C(n, i) <= C(n, k)` for `i <= k` with `2k <= n`.
proof fn lemma_binom_mono(n: nat, i: nat, k: nat)
    requires
        i <= k,
        2 * k <= n,
    ensures
        binom(n, i) <= binom(n, k),
    decreases k - i,
{
    if i < k {
        lemma_binom_grows(n, i);
        lemma_binom_mono(n, i + 1, k);
    }
}

/// `C(n, k)`, computed by the multiplicative formula on the smaller of `k`
/// and `n - k`.
pub fn binomial(n: usize, k: usize) -> (r: usize)
    requires
        binom(n as nat, k as nat) <= usize::MAX,
    ensures
        r == binom(n as nat, k as nat),
{
    if k > n {
        proof {
            lemma_binom_zero(n as nat, k as nat);
        }
        return 0;
    }
    let kk: usize = if k <= n - k { k } else { n - k };
    proof {
        lemma_binom_symmetric(n as nat, k as nat);
        assert(binom(n as nat, kk as nat) == binom(n as nat, k as nat));
    }
    let mut acc: u128 = 1;
    let mut i: usize = 0;
    while i < kk
        invariant
            kk <= n,
            2 * kk <= n,
            i <= kk,
            acc == binom(n as nat, i as nat),
            binom(n as nat, kk as nat) <= usize::MAX,
        decreases kk - i,
    {
        proof {
            lemma_binom_step(n as nat, i as nat);
            lemma_binom_mono(n as nat, i as nat, kk as nat);
            lemma_binom_mono(n as nat, (i + 1) as nat, kk as nat);
            let a: int = acc as int;
            let b: int = (n - i) as int;
            let mx: int = usize::MAX as int;
            assert(a * b <= mx * mx) by (nonlinear_arith)
                requires
                    0 <= a <= mx,
                    0 <= b <= mx,
            ;
            assert(mx * mx <= u128::MAX) by (nonlinear_arith)
                requires
                    mx <= 0xffff_ffff_ffff_ffff,
                    0 <= mx,
            ;
            lemma_div_by_multiple(binom(n as nat, (i + 1) as nat) as int, (i + 1) as int);
        }
        let prod: u128 = acc * ((n - i) as u128);
        acc = prod / ((i + 1) as u128);
        i = i + 1;
    }
    acc as usize
}

/// Sum of the entries of an index vector.
pub open spec fn seq_sum(s: Seq<usize>) -> nat
    decreases s.len(),
{
    if s.len() == 0 {
        0
    } else {
        s[0] as nat + seq_sum(s.drop_first())
    }
}

/// Strict lexicographic order on index vectors, first entry most significant.
pub open spec fn lex_lt(a: Seq<usize>, b: Seq<usize>) -> bool
    decreases a.len(),
{
    if a.len() == 0 || b.len() == 0 {
        a.len() == 0 && b.len() > 0
    } else {
        a[0] < b[0] || (a[0] == b[0] && lex_lt(a.drop_first(), b.drop_first()))
    }
}

/// Strict graded-lex order: total degree first, then lexicographic.
pub open spec fn grlex_lt(a: Seq<usize>, b: Seq<usize>) -> bool {
    seq_sum(a) < seq_sum(b) || (seq_sum(a) == seq_sum(b) && lex_lt(a, b))
}

/// A multi-index of `n` variables with total degree at most `m`.
pub open spec fn is_multi_index(k: Seq<usize>, n: nat, m: nat) -> bool {
    k.len() == n && seq_sum(k) <= m
}

/// The sequence `k` with `f` put in front.
pub open spec fn cons(f: usize, k: Seq<usize>) -> Seq<usize> {
    seq![f] + k
}

proof fn lemma_cons(f: usize, k: Seq<usize>)
    ensures
        cons(f, k).len() == k.len() + 1,
        cons(f, k)[0] == f,
        cons(f, k).drop_first() == k,
        seq_sum(cons(f, k)) == f + seq_sum(k),
{
    assert(cons(f, k).drop_first() =~= k);
}

proof fn lemma_uncons(k: Seq<usize>)
    requires
        k.len() > 0,
    ensures
        k == cons(k[0], k.drop_first()),
{
    assert(k =~= cons(k[0], k.drop_first()));
}

/// Strict lexicographic order is transitive.
pub proof fn lemma_lex_trans(a: Seq<usize>, b: Seq<usize>, c: Seq<usize>)
    requires
        lex_lt(a, b),
        lex_lt(b, c),
    ensures
        lex_lt(a, c),
    decreases a.len(),
{
    if a.len() > 0 && b.len() > 0 && c.len() > 0 {
        if a[0] == b[0] && b[0] == c[0] {
            lemma_lex_trans(a.drop_first(), b.drop_first(), c.drop_first());
        }
    }
}

/// Strict lexicographic order is irreflexive.
pub proof fn lemma_lex_irrefl(a: Seq<usize>)
    ensures
        !lex_lt(a, a),
    decreases a.len(),
{
    if a.len() > 0 {
        lemma_lex_irrefl(a.drop_first());
    }
}

fn prepend(f: usize, k: &Vec<usize>) -> (r: Vec<usize>)
    ensures
        r@ == cons(f, k@),
{
    let mut r: Vec<usize> = Vec::new();
    r.push(f);
    let mut i: usize = 0;
    while i < k.len()
        invariant
            i <= k@.len(),
            r@ == cons(f, k@.subrange(0, i as int)),
        decreases k@.len() - i,
    {
        r.push(k[i]);
        i = i + 1;
        assert(r@ =~= cons(f, k@.subrange(0, i as int)));
    }
    assert(k@.subrange(0, k@.len() as int) =~= k@);
    r
}

/// All index vectors of length `n` with entries summing to exactly `d`, in
/// strictly increasing lexicographic order.
fn compositions(n: usize, d: usize) -> (r: Vec<Vec<usize>>)
    ensures
        forall|i: int| 0 <= i < r@.len() ==> #[trigger] r@[i]@.len() == n && seq_sum(r@[i]@) == d,
        forall|i: int, j: int| 0 <= i < j < r@.len() ==> lex_lt(#[trigger] r@[i]@, #[trigger] r@[j]@),
        forall|k: Seq<usize>|
            k.len() == n && seq_sum(k) == d ==> exists|i: int| 0 <= i < r@.len() && #[trigger] r@[i]@ == k,
    decreases n,
{
    let mut out: Vec<Vec<usize>> = Vec::new();
    if n == 0 {
        if d == 0 {
            out.push(Vec::new());
            assert forall|k: Seq<usize>| k.len() == n && seq_sum(k) == d implies exists|i: int|
                0 <= i < out@.len() && #[trigger] out@[i]@ == k by {
                assert(k =~= out@[0]@);
            }
        }
        return out;
    }
    let mut f: usize = 0;
    loop
        invariant_except_break
            n > 0,
            f <= d,
            forall|i: int| 0 <= i < out@.len() ==> #[trigger] out@[i]@.len() == n && seq_sum(out@[i]@) == d && out@[i]@[0] < f,
            forall|i: int, j: int| 0 <= i < j < out@.len() ==> lex_lt(#[trigger] out@[i]@, #[trigger] out@[j]@),
            forall|k: Seq<usize>|
                k.len() == n && seq_sum(k) == d && k[0] < f ==> exists|i: int| 0 <= i < out@.len() && #[trigger] out@[i]@ == k,
        ensures
            forall|i: int| 0 <= i < out@.len() ==> #[trigger] out@[i]@.len() == n && seq_sum(out@[i]@) == d,
            forall|i: int, j: int| 0 <= i < j < out@.len() ==> lex_lt(#[trigger] out@[i]@, #[trigger] out@[j]@),
            forall|k: Seq<usize>|
                k.len() == n && seq_sum(k) == d ==> exists|i: int| 0 <= i < out@.len() && #[trigger] out@[i]@ == k,
        decreases d - f,
    {
        let rest = compositions(n - 1, d - f);
        let ghost base = out@;
        let mut t: usize = 0;
        while t < rest.len()
            invariant
                n > 0,
                f <= d,
                t <= rest@.len(),
                forall|i: int| 0 <= i < rest@.len() ==> #[trigger] rest@[i]@.len() == n - 1 && seq_sum(rest@[i]@) == d - f,
                forall|i: int, j: int| 0 <= i < j < rest@.len() ==> lex_lt(#[trigger] rest@[i]@, #[trigger] rest@[j]@),
                out@.len() == base.len() + t,
                forall|i: int| 0 <= i < base.len() ==> #[trigger] out@[i] == base[i],
                forall|i: int| 0 <= i < base.len() ==> #[trigger] base[i]@.len() == n && seq_sum(base[i]@) == d && base[i]@[0] < f,
                forall|i: int| 0 <= i < t ==> #[trigger] out@[base.len() + i]@ == cons(f, rest@[i]@),
                forall|i: int| 0 <= i < out@.len() ==> #[trigger] out@[i]@.len() == n && seq_sum(out@[i]@) == d && out@[i]@[0] <= f,
                forall|i: int, j: int| 0 <= i < j < out@.len() ==> lex_lt(#[trigger] out@[i]@, #[trigger] out@[j]@),
                forall|i: int, j: int| 0 <= i < out@.len() && t <= j < rest@.len() ==> lex_lt(#[trigger] out@[i]@, cons(f, #[trigger] rest@[j]@)),
                forall|k: Seq<usize>|
                    k.len() == n && seq_sum(k) == d && k[0] < f ==> exists|i: int| 0 <= i < base.len() && #[trigger] base[i]@ == k,
            decreases rest@.len() - t,
        {
            let v = prepend(f, &rest[t]);
            proof {
                lemma_cons(f, rest@[t as int]@);
                assert forall|j: int| t + 1 <= j < rest@.len() implies lex_lt(v@, cons(f, #[trigger] rest@[j]@)) by {
                    lemma_cons(f, rest@[j]@);
                }
            }
            out.push(v);
            t = t + 1;
            proof {
                assert forall|i: int, j: int| 0 <= i < out@.len() && t <= j < rest@.len() implies lex_lt(#[trigger] out@[i]@, cons(f, #[trigger] rest@[j]@)) by {
                    if i < out@.len() - 1 {
                        lemma_lex_trans(out@[i]@, v@, cons(f, rest@[j]@));
                    }
                }
            }
        }
        proof {
            assert forall|k: Seq<usize>|
                k.len() == n && seq_sum(k) == d && k[0] <= f implies exists|i: int| 0 <= i < out@.len() && #[trigger] out@[i]@ == k by {
                if k[0] < f {
                    let i = choose|i: int| 0 <= i < base.len() && #[trigger] base[i]@ == k;
                    assert(out@[i]@ == k);
                } else {
                    let tail = k.drop_first();
                    assert(tail.len() == n - 1 && seq_sum(tail) == d - f);
                    let j = choose|j: int| 0 <= j < rest@.len() && #[trigger] rest@[j]@ == tail;
                    lemma_uncons(k);
                    assert(out@[base.len() + j]@ == k);
                }
            }
        }
        if f == d {
            proof {
                assert forall|k: Seq<usize>| k.len() == n && seq_sum(k) == d implies exists|i: int|
                    0 <= i < out@.len() && #[trigger] out@[i]@ == k by {
                    assert(k[0] <= seq_sum(k));
                }
            }
            break;
        }
        f = f + 1;
    }
    out
}

/// All multi-indices `(k_1, ..., k_n)` with `k_1 + ... + k_n <= m`, in
/// graded-lex order (total degree first, then lexicographic).
pub fn multi_indices(n: usize, m: usize) -> (r: Vec<Vec<usize>>)
    ensures
        mi_views(r@) == mi_seq(n as nat, m as nat),
        enumerates(mi_seq(n as nat, m as nat), n as nat, m as nat),
        r@.len() == binom((n + m) as nat, n as nat),
        forall|i: int| 0 <= i < r@.len() ==> is_multi_index(#[trigger] r@[i]@, n as nat, m as nat),
        forall|i: int, j: int| 0 <= i < j < r@.len() ==> grlex_lt(#[trigger] r@[i]@, #[trigger] r@[j]@),
        forall|k: Seq<usize>|
            is_multi_index(k, n as nat, m as nat) ==> exists|i: int| 0 <= i < r@.len() && #[trigger] r@[i]@ == k,
{
    let mut out: Vec<Vec<usize>> = Vec::new();
    let mut d: usize = 0;
    loop
        invariant_except_break
            d <= m,
            forall|i: int| 0 <= i < out@.len() ==> #[trigger] out@[i]@.len() == n && seq_sum(out@[i]@) < d,
            forall|i: int, j: int| 0 <= i < j < out@.len() ==> grlex_lt(#[trigger] out@[i]@, #[trigger] out@[j]@),
            forall|k: Seq<usize>|
                k.len() == n && seq_sum(k) < d ==> exists|i: int| 0 <= i < out@.len() && #[trigger] out@[i]@ == k,
        ensures
            forall|i: int| 0 <= i < out@.len() ==> is_multi_index(#[trigger] out@[i]@, n as nat, m as nat),
            forall|i: int, j: int| 0 <= i < j < out@.len() ==> grlex_lt(#[trigger] out@[i]@, #[trigger] out@[j]@),
            forall|k: Seq<usize>|
                is_multi_index(k, n as nat, m as nat) ==> exists|i: int| 0 <= i < out@.len() && #[trigger] out@[i]@ == k,
        decreases m - d,
    {
        let layer = compositions(n, d);
        let ghost base = out@;
        let mut t: usize = 0;
        while t < layer.len()
            invariant
                d <= m,
                t <= layer@.len(),
                forall|i: int| 0 <= i < layer@.len() ==> #[trigger] layer@[i]@.len() == n && seq_sum(layer@[i]@) == d,
                forall|i: int, j: int| 0 <= i < j < layer@.len() ==> lex_lt(#[trigger] layer@[i]@, #[trigger] layer@[j]@),
                out@.len() == base.len() + t,
                forall|i: int| 0 <= i < base.len() ==> #[trigger] out@[i] == base[i],
                forall|i: int| 0 <= i < t ==> #[trigger] out@[base.len() + i]@ == layer@[i]@,
                forall|i: int| 0 <= i < base.len() ==> #[trigger] base[i]@.len() == n && seq_sum(base[i]@) < d,
                forall|i: int| 0 <= i < out@.len() ==> #[trigger] out@[i]@.len() == n && seq_sum(out@[i]@) <= d,
                forall|i: int, j: int| 0 <= i < j < out@.len() ==> grlex_lt(#[trigger] out@[i]@, #[trigger] out@[j]@),
                forall|i: int, j: int| 0 <= i < out@.len() && t <= j < layer@.len() ==> grlex_lt(#[trigger] out@[i]@, #[trigger] layer@[j]@),
                forall|k: Seq<usize>|
                    k.len() == n && seq_sum(k) < d ==> exists|i: int| 0 <= i < base.len() && #[trigger] base[i]@ == k,
            decreases layer@.len() - t,
        {
            let v = layer[t].clone();
            assert(v@ == layer@[t as int]@);
            out.push(v);
            t = t + 1;
        }
        proof {
            assert forall|k: Seq<usize>| k.len() == n && seq_sum(k) <= d implies exists|i: int|
                0 <= i < out@.len() && #[trigger] out@[i]@ == k by {
                if seq_sum(k) < d {
                    let i = choose|i: int| 0 <= i < base.len() && #[trigger] base[i]@ == k;
                    assert(out@[i]@ == k);
                } else {
                    let j = choose|j: int| 0 <= j < layer@.len() && #[trigger] layer@[j]@ == k;
                    assert(out@[base.len() + j]@ == layer@[j]@);
                }
            }
        }
        if d == m {
            break;
        }
        d = d + 1;
    }
    proof {
        let s = mi_views(out@);
        assert forall|k: Seq<usize>| is_multi_index(k, n as nat, m as nat) implies exists|i: int|
            0 <= i < s.len() && #[trigger] s[i] == k by {
            let i = choose|i: int| 0 <= i < out@.len() && #[trigger] out@[i]@ == k;
            assert(s[i] == k);
        }
        assert(enumerates(s, n as nat, m as nat));
        lemma_enumeration_unique(s, mi_seq(n as nat, m as nat), n as nat, m as nat);
        lemma_enumeration_len(s, n as nat, m as nat);
    }
    out
}

/// Bit `j` of `i`, as used for hypercube points.
pub open spec fn bit(i: nat, j: nat) -> usize {
    ((i / pow2(j)) % 2) as usize
}

/// The hypercube point at position `i` of `{0,1}^n` (bit 0 first).
pub open spec fn cube_point(i: nat, n: nat) -> Seq<usize> {
    Seq::new(n, |j: int| bit(i, j as nat))
}

/// All boolean points of `{0,1}^n`; position `i` holds the bits of `i`,
/// least significant first.
pub fn hypercube(n: usize) -> (r: Vec<Vec<usize>>)
    requires
        pow2(n as nat) <= usize::MAX,
    ensures
        r@.len() == pow2(n as nat),
        forall|i: int| 0 <= i < r@.len() ==> #[trigger] r@[i]@ == cube_point(i as nat, n as nat),
{
    proof {
        lemma2_to64();
    }
    let mut size: usize = 1;
    let mut e: usize = 0;
    while e < n
        invariant
            e <= n,
            size == pow2(e as nat),
            pow2(n as nat) <= usize::MAX,
        decreases n - e,
    {
        proof {
            lemma_pow2_unfold((e + 1) as nat);
            if e + 1 < n {
                lemma_pow2_strictly_increases((e + 1) as nat, n as nat);
            }
        }
        size = size * 2;
        e = e + 1;
    }
    let mut out: Vec<Vec<usize>> = Vec::new();
    let mut i: usize = 0;
    while i < size
        invariant
            size == pow2(n as nat),
            pow2(0) == 1,
            i <= size,
            out@.len() == i,
            forall|t: int| 0 <= t < i ==> #[trigger] out@[t]@ == cube_point(t as nat, n as nat),
        decreases size - i,
    {
        let mut point: Vec<usize> = Vec::new();
        let mut p: usize = 1;
        let mut j: usize = 0;
        while j < n
            invariant
                j <= n,
                j < n ==> p == pow2(j as nat),
                pow2(n as nat) == size,
                size <= usize::MAX,
                point@.len() == j,
                forall|t: int| 0 <= t < j ==> #[trigger] point@[t] == bit(i as nat, t as nat),
            decreases n - j,
        {
            proof {
                lemma_pow2_pos(j as nat);
            }
            point.push((i / p) % 2);
            proof {
                lemma_pow2_unfold((j + 1) as nat);
                if j + 1 < n {
                    lemma_pow2_strictly_increases((j + 1) as nat, n as nat);
                }
            }
            if j + 1 < n {
                p = p * 2;
            }
            j = j + 1;
        }
        assert(point@ =~= cube_point(i as nat, n as nat));
        out.push(point);
        i = i + 1;
    }
    out
}

/// The number whose binary digits, least significant first, are `p`.
pub open spec fn bits_value(p: Seq<usize>) -> nat
    decreases p.len(),
{
    if p.len() == 0 {
        0
    } else {
        bits_value(p.drop_last()) + (p.last() as nat) * pow2((p.len() - 1) as nat)
    }
}

/// The first `n` bits of `i` spell `i` modulo `2^n`.
pub proof fn lemma_cube_point_value(i: nat, n: nat)
    ensures
        bits_value(cube_point(i, n)) == i % pow2(n),
    decreases n,
{
    lemma_pow2_pos(n);
    if n == 0 {
        assert(pow2(0) == 1) by {
            lemma2_to64();
        }
        assert(i % 1 == 0) by {
            lemma_mod_bound(i as int, 1);
        }
    } else {
        let k = (n - 1) as nat;
        lemma_cube_point_value(i, k);
        assert(cube_point(i, n).drop_last() =~= cube_point(i, k));
        lemma_pow2_unfold(n);
        lemma_pow2_pos(k);
        lemma_breakdown(i as int, pow2(k) as int, 2);
        assert(pow2(n) == pow2(k) * 2);
        assert(cube_point(i, n).last() == bit(i, k));
        let y = pow2(k) as int;
        let b = (i as int / y) % 2;
        assert(bit(i, k) as int == b);
        assert((bit(i, k) as nat) * pow2(k) == y * b) by (nonlinear_arith)
            requires
                bit(i, k) as int == b,
                y == pow2(k) as int,
        ;
        assert(pow2(n) as int == y * 2);
        assert(i as int % (y * 2) == y * b + i as int % y);
    }
}

/// Law: position `i` of [`hypercube`]`(n)` decodes back to `i`: its bits,
/// least significant first, spell `i`.
pub proof fn lemma_hypercube_roundtrip(i: nat, n: nat)
    requires
        i < pow2(n),
    ensures
        cube_point(i, n).len() == n,
        bits_value(cube_point(i, n)) == i,
{
    lemma_cube_point_value(i, n);
    lemma_small_mod(i, pow2(n));
}

/// Law: bit `j` of a hypercube point is the shift form `(i >> j) & 1`.
pub proof fn lemma_bit_shift(i: u64, j: u64)
    requires
        j < 64,
    ensures
        bit(i as nat, j as nat) == ((i >> j) & 1) as usize,
{
    vstd::bits::lemma_u64_shr_is_div(i, j);
    let x = i >> j;
    assert(x & 1 == x % 2) by (bit_vector);
}

/// `s` lists every multi-index of `n` variables and degree at most `m`
/// exactly once, in strictly increasing graded-lex order.
pub open spec fn enumerates(s: Seq<Seq<usize>>, n: nat, m: nat) -> bool {
    &&& forall|i: int| 0 <= i < s.len() ==> is_multi_index(#[trigger] s[i], n, m)
    &&& forall|i: int, j: int| 0 <= i < j < s.len() ==> grlex_lt(#[trigger] s[i], #[trigger] s[j])
    &&& forall|k: Seq<usize>| is_multi_index(k, n, m) ==> exists|i: int| 0 <= i < s.len() && #[trigger] s[i] == k
}

/// The graded-lex enumeration of the multi-indices of `n` variables and
/// degree at most `m`.
pub open spec fn mi_seq(n: nat, m: nat) -> Seq<Seq<usize>> {
    choose|s: Seq<Seq<usize>>| enumerates(s, n, m)
}

/// Lexicographic order is total on sequences of equal length.
pub proof fn lemma_lex_total(a: Seq<usize>, b: Seq<usize>)
    requires
        a.len() == b.len(),
        a != b,
    ensures
        lex_lt(a, b) || lex_lt(b, a),
    decreases a.len(),
{
    if a.len() == 0 {
        assert(a =~= b);
    } else if a[0] == b[0] {
        if a.drop_first() == b.drop_first() {
            lemma_uncons(a);
            lemma_uncons(b);
        }
        lemma_lex_total(a.drop_first(), b.drop_first());
    }
}

proof fn lemma_grlex_trans(a: Seq<usize>, b: Seq<usize>, c: Seq<usize>)
    requires
        grlex_lt(a, b),
        grlex_lt(b, c),
    ensures
        grlex_lt(a, c),
{
    if seq_sum(a) == seq_sum(b) && seq_sum(b) == seq_sum(c) {
        lemma_lex_trans(a, b, c);
    }
}

pub proof fn lemma_grlex_irrefl(a: Seq<usize>)
    ensures
        !grlex_lt(a, a),
{
    lemma_lex_irrefl(a);
}

/// There is exactly one enumeration.
pub proof fn lemma_enumeration_unique(a: Seq<Seq<usize>>, b: Seq<Seq<usize>>, n: nat, m: nat)
    requires
        enumerates(a, n, m),
        enumerates(b, n, m),
    ensures
        a == b,
{
    assert forall|i: int| 0 <= i < a.len() && 0 <= i < b.len() implies a[i] == b[i] by {
        lemma_enumeration_prefix(a, b, n, m, i);
    }
    lemma_enumeration_no_longer(a, b, n, m);
    lemma_enumeration_no_longer(b, a, n, m);
    assert(a =~= b);
}

proof fn lemma_enumeration_prefix(a: Seq<Seq<usize>>, b: Seq<Seq<usize>>, n: nat, m: nat, i: int)
    requires
        enumerates(a, n, m),
        enumerates(b, n, m),
        0 <= i < a.len(),
        0 <= i < b.len(),
    ensures
        a[i] == b[i],
    decreases i,
{
    if i > 0 {
        assert forall|t: int| 0 <= t < i implies a[t] == b[t] by {
            lemma_enumeration_prefix(a, b, n, m, t);
        }
    }
    if a[i] != b[i] {
        assert(is_multi_index(a[i], n, m));
        assert(is_multi_index(b[i], n, m));
        let j = choose|j: int| 0 <= j < b.len() && #[trigger] b[j] == a[i];
        let k = choose|k: int| 0 <= k < a.len() && #[trigger] a[k] == b[i];
        if j < i {
            assert(a[j] == b[j]);
            assert(grlex_lt(a[j], a[i]));
            lemma_grlex_irrefl(a[i]);
        }
        if k < i {
            assert(a[k] == b[k]);
            assert(grlex_lt(b[k], b[i]));
            lemma_grlex_irrefl(b[i]);
        }
        // now j > i and k > i
        assert(grlex_lt(b[i], b[j]));
        assert(grlex_lt(a[i], a[k]));
        lemma_grlex_trans(a[i], b[i], a[i]);
        lemma_grlex_irrefl(a[i]);
    }
}

proof fn lemma_enumeration_no_longer(a: Seq<Seq<usize>>, b: Seq<Seq<usize>>, n: nat, m: nat)
    requires
        enumerates(a, n, m),
        enumerates(b, n, m),
    ensures
        b.len() <= a.len(),
{
    if a.len() < b.len() {
        let x = b[a.len() as int];
        assert(is_multi_index(x, n, m));
        let j = choose|j: int| 0 <= j < a.len() && #[trigger] a[j] == x;
        lemma_enumeration_prefix(a, b, n, m, j);
        assert(grlex_lt(b[j], b[a.len() as int]));
        lemma_grlex_irrefl(x);
    }
}

proof fn lemma_degree_prefix_at(a: Seq<Seq<usize>>, b: Seq<Seq<usize>>, n: nat, m: nat, m2: nat, i: int)
    requires
        enumerates(a, n, m),
        enumerates(b, n, m2),
        m <= m2,
        0 <= i < a.len(),
    ensures
        i < b.len(),
        b[i] == a[i],
    decreases i,
{
    assert forall|t: int| 0 <= t < i implies t < b.len() && b[t] == a[t] by {
        lemma_degree_prefix_at(a, b, n, m, m2, t);
    }
    assert(is_multi_index(a[i], n, m2));
    let j = choose|j: int| 0 <= j < b.len() && #[trigger] b[j] == a[i];
    if j < i {
        assert(b[j] == a[j]);
        assert(grlex_lt(a[j], a[i]));
        lemma_grlex_irrefl(a[i]);
    }
    if j > i {
        assert(grlex_lt(b[i], b[j]));
        assert(is_multi_index(b[i], n, m2));
        assert(is_multi_index(b[i], n, m));
        let k = choose|k: int| 0 <= k < a.len() && #[trigger] a[k] == b[i];
        if k < i {
            assert(b[k] == a[k]);
            assert(grlex_lt(b[k], b[i]));
            lemma_grlex_irrefl(b[i]);
        } else if k > i {
            assert(grlex_lt(a[i], a[k]));
            lemma_grlex_trans(a[i], b[i], a[i]);
            lemma_grlex_irrefl(a[i]);
        } else {
            lemma_grlex_irrefl(a[i]);
        }
    }
}

/// Law: the graded-lex enumeration of degree at most `m` is a prefix of
/// the one of any higher degree `m2`, for the same number of variables.
pub proof fn lemma_enumeration_degree_prefix(a: Seq<Seq<usize>>, b: Seq<Seq<usize>>, n: nat, m: nat, m2: nat)
    requires
        enumerates(a, n, m),
        enumerates(b, n, m2),
        m <= m2,
    ensures
        a.len() <= b.len(),
        b.take(a.len() as int) == a,
{
    if a.len() > 0 {
        lemma_degree_prefix_at(a, b, n, m, m2, a.len() - 1);
    }
    assert forall|i: int| 0 <= i < a.len() implies b.take(a.len() as int)[i] == a[i] by {
        lemma_degree_prefix_at(a, b, n, m, m2, i);
    }
    assert(b.take(a.len() as int) =~= a);
}

/// Law: the multi-indices of degree at most `m` are listed, in the same
/// positions, first among those of any higher degree `m2` (both as
/// [`multi_indices`] returns them).
pub proof fn lemma_multi_indices_prefix(n: nat, m: nat, m2: nat)
    requires
        m <= m2,
        enumerates(mi_seq(n, m), n, m),
        enumerates(mi_seq(n, m2), n, m2),
    ensures
        mi_seq(n, m).len() <= mi_seq(n, m2).len(),
        mi_seq(n, m2).take(mi_seq(n, m).len() as int) == mi_seq(n, m),
{
    lemma_enumeration_degree_prefix(mi_seq(n, m), mi_seq(n, m2), n, m, m2);
}

/// The graded-lex enumeration as a sequence of index vectors.
pub open spec fn mi_views(r: Seq<Vec<usize>>) -> Seq<Seq<usize>> {
    r.map_values(|v: Vec<usize>| v@)
}


/// The all-zero index vector of length `n`.
pub open spec fn zeros(n: nat) -> Seq<usize> {
    Seq::new(n, |i: int| 0usize)
}

/// `k` with its first entry raised by one.
spec fn bump(k: Seq<usize>) -> Seq<usize> {
    cons((k[0] + 1) as usize, k.drop_first())
}

/// The multi-indices of `n` variables and degree at most `m`, listed by
/// Pascal's rule: those with a zero first entry, then those whose first
/// entry can be lowered by one.
spec fn pascal_list(n: nat, m: nat) -> Seq<Seq<usize>>
    decreases n, m,
{
    if n == 0 {
        seq![Seq::<usize>::empty()]
    } else if m == 0 {
        seq![zeros(n)]
    } else {
        pascal_list((n - 1) as nat, m).map_values(|k: Seq<usize>| cons(0usize, k))
            + pascal_list(n, (m - 1) as nat).map_values(|k: Seq<usize>| bump(k))
    }
}

proof fn lemma_pascal_len(n: nat, m: nat)
    ensures
        pascal_list(n, m).len() == binom(n + m, n),
    decreases n, m,
{
    if n == 0 {
    } else if m == 0 {
        lemma_binom_diag(n);
    } else {
        lemma_pascal_len((n - 1) as nat, m);
        lemma_pascal_len(n, (m - 1) as nat);
        assert(binom(n + m, n) == binom((n + m - 1) as nat, (n - 1) as nat) + binom((n + m - 1) as nat, n));
        assert((n - 1) as nat + m == (n + m - 1) as nat);
        assert(n + (m - 1) as nat == (n + m - 1) as nat);
    }
}

pub proof fn lemma_sum_zero(k: Seq<usize>)
    ensures
        seq_sum(k) == 0 <==> k == zeros(k.len()),
    decreases k.len(),
{
    if k.len() > 0 {
        lemma_sum_zero(k.drop_first());
        if seq_sum(k) == 0 {
            assert forall|i: int| 0 <= i < k.len() implies k[i] == 0usize by {
                if i > 0 {
                    assert(k[i] == k.drop_first()[i - 1]);
                }
            }
            assert(k =~= zeros(k.len()));
        }
        if k == zeros(k.len()) {
            assert(k.drop_first() =~= zeros(k.drop_first().len()));
        }
    } else {
        assert(k =~= zeros(0));
    }
}

proof fn lemma_pascal_members(n: nat, m: nat)
    requires
        m <= usize::MAX,
    ensures
        forall|i: int| 0 <= i < pascal_list(n, m).len() ==> is_multi_index(#[trigger] pascal_list(n, m)[i], n, m),
        forall|k: Seq<usize>| is_multi_index(k, n, m) ==> #[trigger] pascal_list(n, m).contains(k),
        pascal_list(n, m).no_duplicates(),
    decreases n, m,
{
    let l = pascal_list(n, m);
    if n == 0 {
        assert forall|k: Seq<usize>| is_multi_index(k, n, m) implies #[trigger] l.contains(k) by {
            assert(k =~= Seq::<usize>::empty());
            assert(l[0] == k);
        }
    } else if m == 0 {
        lemma_sum_zero(zeros(n));
        assert forall|k: Seq<usize>| is_multi_index(k, n, m) implies #[trigger] l.contains(k) by {
            lemma_sum_zero(k);
            assert(l[0] == k);
        }
    } else {
        let pa = pascal_list((n - 1) as nat, m);
        let pb = pascal_list(n, (m - 1) as nat);
        let a = pa.map_values(|k: Seq<usize>| cons(0usize, k));
        let b = pb.map_values(|k: Seq<usize>| bump(k));
        lemma_pascal_members((n - 1) as nat, m);
        lemma_pascal_members(n, (m - 1) as nat);
        assert(l == a + b);
        assert forall|i: int| 0 <= i < a.len() implies #[trigger] a[i][0] == 0 && is_multi_index(a[i], n, m) by {
            lemma_cons(0usize, pa[i]);
        }
        assert forall|i: int| 0 <= i < b.len() implies #[trigger] b[i][0] >= 1 && is_multi_index(b[i], n, m) by {
            assert(is_multi_index(pb[i], n, (m - 1) as nat));
            lemma_uncons(pb[i]);
            lemma_cons(pb[i][0], pb[i].drop_first());
            lemma_cons((pb[i][0] + 1) as usize, pb[i].drop_first());
        }
        assert forall|i: int| 0 <= i < l.len() implies is_multi_index(#[trigger] l[i], n, m) by {
            if i < a.len() {
                assert(l[i] == a[i]);
            } else {
                assert(l[i] == b[i - a.len()]);
            }
        }
        assert forall|k: Seq<usize>| is_multi_index(k, n, m) implies #[trigger] l.contains(k) by {
            lemma_uncons(k);
            lemma_cons(k[0], k.drop_first());
            if k[0] == 0 {
                let t = k.drop_first();
                assert(is_multi_index(t, (n - 1) as nat, m));
                assert(pa.contains(t));
                let i = choose|i: int| 0 <= i < pa.len() && pa[i] == t;
                assert(a[i] == k);
                assert(l[i] == k);
            } else {
                let y = cons((k[0] - 1) as usize, k.drop_first());
                lemma_cons((k[0] - 1) as usize, k.drop_first());
                assert(is_multi_index(y, n, (m - 1) as nat));
                assert(pb.contains(y));
                let i = choose|i: int| 0 <= i < pb.len() && pb[i] == y;
                assert(bump(y) =~= k);
                assert(b[i] == k);
                assert(l[a.len() + i] == k);
            }
        }
        assert forall|i: int, j: int| 0 <= i < l.len() && 0 <= j < l.len() && i != j implies l[i] != l[j] by {
            if i < a.len() && j < a.len() {
                if l[i] == l[j] {
                    lemma_cons(0usize, pa[i]);
                    lemma_cons(0usize, pa[j]);
                    assert(a[i].drop_first() == pa[i]);
                    assert(a[j].drop_first() == pa[j]);
                }
            } else if i >= a.len() && j >= a.len() {
                let (x, y) = (pb[i - a.len()], pb[j - a.len()]);
                if l[i] == l[j] {
                    assert(l[i] == bump(x));
                    assert(l[j] == bump(y));
                    assert(is_multi_index(x, n, (m - 1) as nat));
                    assert(is_multi_index(y, n, (m - 1) as nat));
                    lemma_uncons(x);
                    lemma_uncons(y);
                    lemma_cons(x[0], x.drop_first());
                    lemma_cons(y[0], y.drop_first());
                    lemma_cons((x[0] + 1) as usize, x.drop_first());
                    lemma_cons((y[0] + 1) as usize, y.drop_first());
                    assert(bump(x)[0] == bump(y)[0]);
                    assert(bump(x).drop_first() == bump(y).drop_first());
                    assert(x[0] <= m - 1);
                    assert(y[0] <= m - 1);
                    assert(x == y);
                }
            } else if i < a.len() {
                assert(l[i][0] == 0);
                assert(l[j] == b[j - a.len()]);
            } else {
                assert(l[j][0] == 0);
                assert(l[i] == b[i - a.len()]);
            }
        }
    }
}

/// Counting law: every graded-lex enumeration of the multi-indices of `n`
/// variables and degree at most `m` has `C(n + m, n)` entries, the slot
/// count of `VPoly(n, m)`.
pub proof fn lemma_enumeration_len(s: Seq<Seq<usize>>, n: nat, m: nat)
    requires
        enumerates(s, n, m),
        m <= usize::MAX,
    ensures
        s.len() == binom(n + m, n),
{
    let l = pascal_list(n, m);
    lemma_pascal_len(n, m);
    lemma_pascal_members(n, m);
    assert forall|i: int, j: int| 0 <= i < s.len() && 0 <= j < s.len() && i != j implies s[i] != s[j] by {
        if i < j {
            assert(grlex_lt(s[i], s[j]));
            if s[i] == s[j] {
                lemma_grlex_irrefl(s[i]);
            }
        } else {
            assert(grlex_lt(s[j], s[i]));
            if s[i] == s[j] {
                lemma_grlex_irrefl(s[i]);
            }
        }
    }
    assert(s.no_duplicates());
    assert forall|k: Seq<usize>| s.to_set().contains(k) <==> l.to_set().contains(k) by {
        if s.contains(k) {
            let i = choose|i: int| 0 <= i < s.len() && s[i] == k;
            assert(is_multi_index(s[i], n, m));
            assert(l.contains(k));
        }
        if l.contains(k) {
            let i = choose|i: int| 0 <= i < l.len() && l[i] == k;
            assert(is_multi_index(l[i], n, m));
            let j = choose|j: int| 0 <= j < s.len() && #[trigger] s[j] == k;
            assert(s.contains(k));
        }
    }
    assert(s.to_set() =~= l.to_set());
    s.unique_seq_to_set();
    l.unique_seq_to_set();
}


/// The constant monomial `(0, ..., 0)` opens every graded-lex enumeration.
pub proof fn lemma_enumeration_first_zero(s: Seq<Seq<usize>>, n: nat, m: nat)
    requires
        enumerates(s, n, m),
    ensures
        s.len() > 0,
        s[0] == zeros(n),
{
    lemma_sum_zero(zeros(n));
    assert(is_multi_index(zeros(n), n, m));
    let i = choose|i: int| 0 <= i < s.len() && #[trigger] s[i] == zeros(n);
    if i > 0 {
        assert(grlex_lt(s[0], s[i]));
        lemma_sum_zero(s[0]);
        lemma_grlex_irrefl(s[i]);
    }
}

/// Position round trip: the entry at position `i` of an enumeration occurs
/// at no other position.
pub proof fn lemma_enumeration_position(s: Seq<Seq<usize>>, n: nat, m: nat, i: int, j: int)
    requires
        enumerates(s, n, m),
        0 <= i < s.len(),
        0 <= j < s.len(),
        s[i] == s[j],
    ensures
        i == j,
{
    if i < j {
        assert(grlex_lt(s[i], s[j]));
        lemma_grlex_irrefl(s[i]);
    } else if j < i {
        assert(grlex_lt(s[j], s[i]));
        lemma_grlex_irrefl(s[i]);
    }
}


/// `sum_{j < count} (w^(i j) mod r) * c_j`, unreduced: row `i` of the DFT
/// matrix for `w` applied to the values of the first `count` coefficients.
pub open spec fn dft_sum(cs: Seq<PolyV>, w: nat, i: nat, env: Env, count: nat) -> int
    decreases count,
{
    if count == 0 {
        0
    } else {
        let j = (count - 1) as nat;
        dft_sum(cs, w, i, env, j) + ((pow(w as int, i * j) as nat % modulus()) * eval(cs[j as int], env)) as int
    }
}

/// `sum_{j < count} (v^j mod r) * c_j`: the first `count` coefficients
/// weighted by the powers of `v`.
pub open spec fn power_sum(cs: Seq<PolyV>, v: int, env: Env, count: nat) -> int
    decreases count,
{
    if count == 0 {
        0
    } else {
        let j = (count - 1) as nat;
        power_sum(cs, v, env, j) + ((pow(v, j) as nat % modulus()) * eval(cs[j as int], env)) as int
    }
}

/// The sum of the values of the first `count` coefficients.
pub open spec fn value_sum(cs: Seq<PolyV>, env: Env, count: nat) -> int
    decreases count,
{
    if count == 0 {
        0
    } else {
        value_sum(cs, env, (count - 1) as nat) + eval(cs[count - 1], env) as int
    }
}

/// Law: row `i` of the DFT matrix for `w` weighs coefficient `j` by
/// `(w^i)^j`; with no coefficients it is zero, and row `0` is the plain
/// sum of the coefficients.
pub proof fn lemma_dft_row_forms(cs: Seq<PolyV>, w: nat, i: nat, env: Env, count: nat)
    ensures
        dft_sum(cs, w, i, env, count) == power_sum(cs, pow(w as int, i), env, count),
        count == 0 ==> dft_sum(cs, w, i, env, count) == 0,
        i == 0 ==> dft_sum(cs, w, i, env, count) == value_sum(cs, env, count),
    decreases count,
{
    if count > 0 {
        let j = (count - 1) as nat;
        lemma_dft_row_forms(cs, w, i, env, j);
        vstd::arithmetic::power::lemma_pow_multiplies(w as int, i, j);
        if i == 0 {
            assert(i * j == 0) by (nonlinear_arith) requires i == 0;
            vstd::arithmetic::power::lemma_pow0(w as int);
            lemma_small_mod(1, modulus());
        }
    }
}

proof fn lemma_pow_step(w: nat, i: nat, j: nat)
    ensures
        ((pow(w as int, i * j) as nat % modulus()) * (pow(w as int, i) as nat % modulus())) % modulus()
            == pow(w as int, i * (j + 1)) as nat % modulus(),
{
    vstd::arithmetic::power::lemma_pow_adds(w as int, i * j, i);
    assert(i * j + i == i * (j + 1)) by (nonlinear_arith);
    crate::poly::lemma_pow_nonneg(w as int, i * j);
    crate::poly::lemma_pow_nonneg(w as int, i);
    let a = pow(w as int, i * j);
    let b = pow(w as int, i);
    vstd::arithmetic::div_mod::lemma_mul_mod_noop(a, b, modulus() as int);
}

/// Row `i` of the DFT matrix for `omega` applied to `coeffs`:
/// `sum_j omega^(i j) * coeffs[j]`.
pub fn dft_row(coeffs: &[Polynomial], omega: Fe, i: usize) -> (r: Polynomial)
    ensures
        forall|env: Env| #[trigger] eval(r@, env)
            == dft_sum(pviews(coeffs@), omega.val(), i as nat, env, coeffs@.len()) % (modulus() as int),
{
    let ghost cs = pviews(coeffs@);
    let ghost w = omega.val();
    let ghost md = modulus() as int;
    let w_step = fe_pow(&omega, i);
    let mut wij = Fe::one();
    let mut acc = Polynomial::zero();
    proof {
        vstd::arithmetic::power::lemma_pow0(w as int);
        assert(i * 0 == 0);
        vstd::arithmetic::div_mod::lemma_small_mod(1, modulus());
    }
    let mut j: usize = 0;
    while j < coeffs.len()
        invariant
            j <= coeffs@.len(),
            cs == pviews(coeffs@),
            w == omega.val(),
            md == modulus() as int,
            w_step.val() == (pow(w as int, i as nat) as nat) % modulus(),
            wij.val() == (pow(w as int, (i * j) as nat) as nat) % modulus(),
            forall|env: Env| #[trigger] eval(acc@, env) == dft_sum(cs, w, i as nat, env, j as nat) % md,
        decreases coeffs@.len() - j,
    {
        let scalar = Polynomial::lit(&wij);
        let term = coeffs[j].mul(&scalar);
        let next = acc.add(&term);
        proof {
            assert forall|env: Env| #[trigger] eval(next@, env) == dft_sum(cs, w, i as nat, env, (j + 1) as nat) % md by {
                let s = dft_sum(cs, w, i as nat, env, j as nat);
                let e = eval(cs[j as int], env);
                let wv = wij.val();
                assert(eval(term@, env) == (e * wv) % modulus());
                assert(dft_sum(cs, w, i as nat, env, (j + 1) as nat) == s + (wv * e) as int);
                vstd::arithmetic::div_mod::lemma_add_mod_noop(s, (wv * e) as int, md);
                vstd::arithmetic::div_mod::lemma_mod_twice(s, md);
                assert((e * wv) == (wv * e)) by (nonlinear_arith);
            }
        }
        acc = next;
        proof {
            lemma_pow_step(w, i as nat, j as nat);
            assert((i * j) as nat + i as nat == (i as nat) * (j as nat + 1)) by (nonlinear_arith);
        }
        wij = wij.mul(&w_step);
        proof {
            assert((i * (j + 1)) as nat == (i as nat) * (j as nat + 1)) by (nonlinear_arith);
            assert((i * j) as nat == (i as nat) * (j as nat)) by (nonlinear_arith);
        }
        j = j + 1;
    }
    acc
}

} // verus!

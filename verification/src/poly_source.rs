//! `PolySource`: the polynomials standing for the physical slots of a value,
//! paired with the value's shape. Gives element access for vectors, lifts to
//! wider shapes (zero padding, multi-index embedding, evaluation-to-coefficient
//! conversion), scalar broadcast and constant injection.
use vstd::prelude::*;
use vstd::arithmetic::power2::*;

use crate::combinatorics::{
    binom, cube_point, enumerates, hypercube, is_multi_index, lemma_binom_one, lemma_enumeration_first_zero,
    lemma_enumeration_degree_prefix, lemma_enumeration_len, lemma_enumeration_position,
    lemma_sum_zero, mi_seq, mi_views, multi_indices, seq_sum, zeros,
};
use crate::poly::Polynomial;
use crate::field::{modulus, Fe};
use crate::polyv::{eval, lemma_mod_diff, lit, Env, PolyV};
use crate::typ::{plen, poly_shape, scalar_like, ABase, ATyp, TypV};
use crate::value::{const_readable, items_consts, items_readable, value_consts, Value};
use crate::var::{slot_list, slots_ok, Ref, Var, VarV};
use crate::ideal::Ideal;
use crate::encode::var_polys;

verus! {

/// The mathematical forms of a sequence of polynomials.
pub open spec fn pviews(s: Seq<Polynomial>) -> Seq<PolyV> {
    s.map_values(|p: Polynomial| p@)
}

/// `n` zero polynomials.
pub open spec fn zero_polys(n: nat) -> Seq<PolyV> {
    Seq::new(n, |i: int| lit(0))
}

/// Slot polynomials of a value together with its shape.
#[derive(Debug)]
pub struct PolySource {
    pub polys: Vec<Polynomial>,
    pub typ: ATyp,
}

impl PolySource {
    /// One polynomial per physical slot of the shape.
    pub open spec fn wf(&self) -> bool {
        self.polys@.len() == plen(self.typ@)
    }

    /// The mathematical forms of the slot polynomials.
    pub open spec fn pv(&self) -> Seq<PolyV> {
        pviews(self.polys@)
    }

    pub fn new(polys: Vec<Polynomial>, typ: ATyp) -> (r: PolySource)
        ensures
            r.polys == polys,
            r.typ == typ,
    {
        PolySource { polys, typ }
    }

    pub fn typ(&self) -> (r: &ATyp)
        ensures
            *r == self.typ,
    {
        &self.typ
    }

    pub fn polys(&self) -> (r: &[Polynomial])
        ensures
            r@ == self.polys@,
    {
        self.polys.as_slice()
    }

    /// One variable polynomial per physical slot of `var`, typed `typ`.
    pub fn from_vars(var: &Var, typ: ATyp) -> (r: PolySource)
        requires
            slots_ok(var.typ@),
        ensures
            r.typ == typ,
            r.pv() == slot_list(var@).map_values(|s: VarV| PolyV::Var(s)),
    {
        let slots = var.slots();
        let mut polys: Vec<Polynomial> = Vec::new();
        let mut i: usize = 0;
        while i < slots.len()
            invariant
                i <= slots@.len(),
                slots@.len() == slot_list(var@).len(),
                forall|j: int| 0 <= j < slots@.len() ==> #[trigger] slots@[j]@ == slot_list(var@)[j],
                polys@.len() == i,
                forall|j: int| 0 <= j < i ==> #[trigger] polys@[j]@ == PolyV::Var(slot_list(var@)[j]),
            decreases slots@.len() - i,
        {
            polys.push(Polynomial::var(&slots[i]));
            i = i + 1;
        }
        let r = PolySource { polys, typ };
        assert(r.pv() =~= slot_list(var@).map_values(|s: VarV| PolyV::Var(s)));
        r
    }

    /// What [`PolySource::at_index`] needs: for an in-range element of a
    /// vector, its slots exist.
    pub open spec fn at_index_ok(&self, i: nat) -> bool {
        match self.typ@ {
            TypV::Vec(e, n) => i < n ==> (i + 1) * plen(*e) <= self.polys@.len(),
            _ => true,
        }
    }

    /// The slots of element `i` of a vector value; `None` when the value is
    /// not a vector or `i` is out of range.
    pub fn at_index(&self, i: usize) -> (r: Option<PolySource>)
        requires
            self.at_index_ok(i as nat),
        ensures
            r is Some <==> (self.typ@ matches TypV::Vec(_, n) && i < n),
            r matches Some(s) ==> ({
                let e = self.typ@->Vec_0;
                &&& s.typ@ == *e
                &&& s.pv() == self.pv().subrange(i * plen(*e), (i + 1) * plen(*e))
            }),
    {
        match &self.typ {
            ATyp::Vec(inner, n) => {
                if i >= *n {
                    return None;
                }
                let total = self.polys.len();
                let ghost pe = plen(inner@);
                assert(self.typ@ == TypV::Vec(Box::new(inner@), *n as nat));
                assert((i + 1) * pe <= self.polys@.len());
                proof {
                    assert(i * pe <= (i + 1) * pe) by (nonlinear_arith);
                    assert(pe <= (i + 1) * pe) by (nonlinear_arith);
                }
                let elem_len = inner.physical_len();
                let lo = i * elem_len;
                assert(i * pe + pe == (i + 1) * pe) by (nonlinear_arith);
                let hi = lo + elem_len;
                let mut polys: Vec<Polynomial> = Vec::new();
                let mut j: usize = lo;
                while j < hi
                    invariant
                        lo <= j <= hi,
                        hi <= self.polys@.len(),
                        polys@.len() == j - lo,
                        forall|t: int| 0 <= t < j - lo ==> #[trigger] polys@[t]@ == self.polys@[lo + t]@,
                    decreases hi - j,
                {
                    polys.push(self.polys[j].clone());
                    j = j + 1;
                }
                let inner_typ: &ATyp = inner;
                let r = PolySource { polys, typ: inner_typ.clone() };
                assert(r.pv() =~= self.pv().subrange(i * plen(inner@), (i + 1) * plen(inner@)));
                Some(r)
            },
            _ => None,
        }
    }

    /// Whether the shape is a polynomial (coefficient or evaluation form).
    pub fn is_poly(&self) -> (r: bool)
        ensures
            r == (poly_shape(self.typ@) is Some || self.typ@ is Mle),
    {
        PolySource::poly_shape_static(&self.typ).is_some() || matches!(self.typ, ATyp::Mle(_))
    }

    /// Field scalars and bounded indices.
    pub fn is_scalar_like(t: &ATyp) -> (r: bool)
        ensures
            r == scalar_like(t@),
    {
        matches!(t, ATyp::Base(ABase::Scalar) | ATyp::Base(ABase::Fin(_)))
    }

    /// `(variables, degree)` of a coefficient-form shape.
    pub fn poly_shape_static(t: &ATyp) -> (r: Option<(usize, usize)>)
        ensures
            r matches Some(p) ==> poly_shape(t@) == Some((p.0 as nat, p.1 as nat)),
            r is None <==> poly_shape(t@) is None,
    {
        match t {
            ATyp::VPoly(n, m) => Some((*n, *m)),
            ATyp::Uni(m) => Some((1, *m)),
            _ => None,
        }
    }

    /// Every slot of `poly_typ` set to the first polynomial of `self`.
    pub fn broadcast_scalar_to(&self, poly_typ: &ATyp) -> (r: PolySource)
        requires
            self.polys@.len() >= 1,
            plen(poly_typ@) <= usize::MAX,
        ensures
            r.typ@ == poly_typ@,
            r.pv() == Seq::new(plen(poly_typ@), |i: int| self.polys@[0]@),
    {
        let dst_len = poly_typ.physical_len();
        let mut polys: Vec<Polynomial> = Vec::new();
        let mut i: usize = 0;
        while i < dst_len
            invariant
                i <= dst_len,
                self.polys@.len() >= 1,
                polys@.len() == i,
                forall|t: int| 0 <= t < i ==> #[trigger] polys@[t]@ == self.polys@[0]@,
            decreases dst_len - i,
        {
            polys.push(self.polys[0].clone());
            i = i + 1;
        }
        let r = PolySource { polys, typ: poly_typ.clone() };
        assert(r.pv() =~= Seq::new(plen(poly_typ@), |i: int| self.polys@[0]@));
        r
    }
}


/// `k` cut or zero-extended to length `n`.
pub open spec fn pad(k: Seq<usize>, n: nat) -> Seq<usize> {
    Seq::new(n, |i: int| if i < k.len() { k[i] } else { 0usize })
}

/// `i` is the first position of `k` in `t`.
pub open spec fn is_first(t: Seq<Seq<usize>>, k: Seq<usize>, i: int) -> bool {
    &&& 0 <= i < t.len()
    &&& t[i] == k
    &&& forall|j: int| 0 <= j < i ==> t[j] != k
}

/// The first position of `k` in `t`, if it occurs.
pub open spec fn position(t: Seq<Seq<usize>>, k: Seq<usize>) -> Option<int> {
    if exists|i: int| is_first(t, k, i) {
        Some(choose|i: int| is_first(t, k, i))
    } else {
        None
    }
}

proof fn lemma_first_unique(t: Seq<Seq<usize>>, k: Seq<usize>, i: int)
    requires
        is_first(t, k, i),
    ensures
        position(t, k) == Some(i),
{
    let c = choose|c: int| is_first(t, k, c);
    assert(is_first(t, k, c));
    if c < i {
        assert(t[c] != k);
    } else if i < c {
        assert(t[i] != k);
    }
}

proof fn lemma_position_none(t: Seq<Seq<usize>>, k: Seq<usize>)
    requires
        forall|i: int| 0 <= i < t.len() ==> t[i] != k,
    ensures
        position(t, k) is None,
{
}

pub proof fn lemma_position_some(t: Seq<Seq<usize>>, k: Seq<usize>)
    requires
        position(t, k) is Some,
    ensures
        is_first(t, k, position(t, k)->0),
{
}

/// Slots after placing the first `j` source polynomials: polynomial `a` goes
/// to the first target position of its padded source index, later ones
/// overwriting earlier ones; untouched slots hold zero.
pub open spec fn embed(ps: Seq<PolyV>, src: Seq<Seq<usize>>, tgt: Seq<Seq<usize>>, n: nat, j: nat) -> Seq<PolyV>
    decreases j,
{
    if j == 0 {
        zero_polys(tgt.len())
    } else {
        let prev = embed(ps, src, tgt, n, (j - 1) as nat);
        match position(tgt, pad(src[j - 1], n)) {
            Some(p) => prev.update(p, ps[j - 1]),
            None => prev,
        }
    }
}

proof fn lemma_embed_len(ps: Seq<PolyV>, src: Seq<Seq<usize>>, tgt: Seq<Seq<usize>>, n: nat, j: nat)
    ensures
        embed(ps, src, tgt, n, j).len() == tgt.len(),
    decreases j,
{
    if j > 0 {
        lemma_embed_len(ps, src, tgt, n, (j - 1) as nat);
        if position(tgt, pad(src[j - 1], n)) is Some {
            lemma_position_some(tgt, pad(src[j - 1], n));
        }
    }
}

/// When every padded source index occurs in the target and no two coincide,
/// source polynomial `a` lands at the position of its padded index and every
/// other slot is zero.
pub proof fn lemma_embed_placed(ps: Seq<PolyV>, src: Seq<Seq<usize>>, tgt: Seq<Seq<usize>>, n: nat, j: nat)
    requires
        j <= src.len(),
        forall|a: int| 0 <= a < j ==> #[trigger] position(tgt, pad(src[a], n)) is Some,
        forall|a: int, b: int| 0 <= a < j && 0 <= b < j && a != b ==> pad(src[a], n) != pad(src[b], n),
    ensures
        embed(ps, src, tgt, n, j).len() == tgt.len(),
        forall|a: int| 0 <= a < j ==> embed(ps, src, tgt, n, j)[#[trigger] position(tgt, pad(src[a], n))->0] == ps[a],
        forall|i: int|
            0 <= i < tgt.len() && (forall|a: int| 0 <= a < j ==> #[trigger] position(tgt, pad(src[a], n))->0 != i)
                ==> embed(ps, src, tgt, n, j)[i] == lit(0),
    decreases j,
{
    lemma_embed_len(ps, src, tgt, n, j);
    if j > 0 {
        let jj = (j - 1) as nat;
        lemma_embed_placed(ps, src, tgt, n, jj);
        let k = pad(src[jj as int], n);
        assert(position(tgt, k) is Some);
        lemma_position_some(tgt, k);
        let p = position(tgt, k)->0;
        let prev = embed(ps, src, tgt, n, jj);
        assert(embed(ps, src, tgt, n, j) == prev.update(p, ps[jj as int]));
        assert forall|a: int| 0 <= a < j implies embed(ps, src, tgt, n, j)[#[trigger] position(tgt, pad(src[a], n))->0] == ps[a] by {
            if a < jj {
                assert(position(tgt, pad(src[a], n)) is Some);
                lemma_position_some(tgt, pad(src[a], n));
                let q = position(tgt, pad(src[a], n))->0;
                assert(tgt[q] == pad(src[a], n));
                assert(pad(src[a], n) != k);
                assert(q != p);
            }
        }
        assert forall|i: int|
            0 <= i < tgt.len() && (forall|a: int| 0 <= a < j ==> #[trigger] position(tgt, pad(src[a], n))->0 != i)
            implies embed(ps, src, tgt, n, j)[i] == lit(0) by {
            assert(position(tgt, pad(src[jj as int], n))->0 != i);
            assert forall|a: int| 0 <= a < jj implies #[trigger] position(tgt, pad(src[a], n))->0 != i by {
                assert(position(tgt, pad(src[a], n))->0 != i);
            }
        }
    }
}

/// `k` cut or zero-extended to length `n`.
fn pad_index(k: &Vec<usize>, n: usize) -> (r: Vec<usize>)
    ensures
        r@ == pad(k@, n as nat),
{
    let mut out: Vec<usize> = Vec::new();
    let mut i: usize = 0;
    while i < n
        invariant
            i <= n,
            out@.len() == i,
            forall|t: int| 0 <= t < i ==> #[trigger] out@[t] == pad(k@, n as nat)[t],
        decreases n - i,
    {
        if i < k.len() {
            out.push(k[i]);
        } else {
            out.push(0);
        }
        i = i + 1;
    }
    assert(out@ =~= pad(k@, n as nat));
    out
}

/// Entrywise equality of index vectors.
fn index_eq(a: &Vec<usize>, b: &Vec<usize>) -> (r: bool)
    ensures
        r == (a@ == b@),
{
    if a.len() != b.len() {
        return false;
    }
    let mut i: usize = 0;
    while i < a.len()
        invariant
            i <= a@.len(),
            a@.len() == b@.len(),
            forall|t: int| 0 <= t < i ==> a@[t] == b@[t],
        decreases a@.len() - i,
    {
        if a[i] != b[i] {
            return false;
        }
        i = i + 1;
    }
    assert(a@ =~= b@);
    true
}

/// The first position of `k` in `t`.
pub(crate) fn find_index(t: &[Vec<usize>], k: &Vec<usize>) -> (r: Option<usize>)
    ensures
        r matches Some(p) ==> position(mi_views(t@), k@) == Some(p as int),
        r is None ==> position(mi_views(t@), k@) is None,
{
    let ghost tv = mi_views(t@);
    let mut p: usize = 0;
    while p < t.len()
        invariant
            p <= t@.len(),
            tv == mi_views(t@),
            forall|j: int| 0 <= j < p ==> tv[j] != k@,
        decreases t@.len() - p,
    {
        if index_eq(&t[p], k) {
            proof {
                lemma_first_unique(tv, k@, p as int);
            }
            return Some(p);
        }
        p = p + 1;
    }
    proof {
        lemma_position_none(tv, k@);
    }
    None
}


/// Coefficient of `x^k` (`k < 2`) in the one-variable Lagrange polynomial
/// of the point `b` of `{0, 1}`: `L_0(x) = 1 - x`, `L_1(x) = x`.
pub open spec fn lag1(b: usize, k: usize) -> int {
    if b == 0 {
        if k == 0 { 1 } else { -1 }
    } else {
        if k == 0 { 0 } else { 1 }
    }
}

/// Entry `i` of `k`, reading missing entries as zero.
pub open spec fn entry(k: Seq<usize>, i: int) -> usize {
    if 0 <= i < k.len() { k[i] } else { 0 }
}

/// Product of the one-variable factors for the first `i` variables.
pub open spec fn lag_prefix(b: Seq<usize>, k: Seq<usize>, i: nat) -> int
    decreases i,
{
    if i == 0 {
        1
    } else {
        lag_prefix(b, k, (i - 1) as nat) * lag1(b[i - 1], entry(k, i - 1))
    }
}

/// Coefficient at multi-index `k` (over `n2` variables) of the multilinear
/// Lagrange polynomial of the hypercube point `b` of `{0, 1}^n1`: zero when
/// some of the first `n1` exponents is at least two or a later exponent is
/// nonzero, else the product of the one-variable coefficients.
pub open spec fn lag_coeff(b: Seq<usize>, k: Seq<usize>, n1: nat, n2: nat) -> int {
    if (exists|i: int| 0 <= i < n1 && entry(k, i) >= 2) || (exists|i: int| n1 <= i < n2 && entry(k, i) != 0) {
        0
    } else {
        lag_prefix(b, k, n1)
    }
}

/// `sum_{j < count} lag_coeff(b_j, k) * value_j`, where `b_j` is hypercube
/// point `j` and `value_j` the value of evaluation slot `j` under `env`.
pub open spec fn lag_sum(ps: Seq<PolyV>, n1: nat, n2: nat, k: Seq<usize>, env: Env, count: nat) -> int
    decreases count,
{
    if count == 0 {
        0
    } else {
        lag_sum(ps, n1, n2, k, env, (count - 1) as nat)
            + lag_coeff(cube_point((count - 1) as nat, n1), k, n1, n2) * eval(ps[count - 1], env)
    }
}

proof fn lemma_lag_prefix_unit(b: Seq<usize>, k: Seq<usize>, i: nat)
    ensures
        -1 <= lag_prefix(b, k, i) <= 1,
    decreases i,
{
    if i > 0 {
        lemma_lag_prefix_unit(b, k, (i - 1) as nat);
        let x = lag_prefix(b, k, (i - 1) as nat);
        let y = lag1(b[i - 1], entry(k, i - 1));
        assert(-1 <= x * y <= 1) by (nonlinear_arith)
            requires
                -1 <= x <= 1,
                -1 <= y <= 1,
        ;
    }
}

proof fn lemma_mod_acc(a: int, s: int, e: int, m: int)
    requires
        m > 0,
    ensures
        ((a % m) + ((s % m) * e) % m) % m == (a + s * e) % m,
{
    vstd::arithmetic::div_mod::lemma_mul_mod_noop_left(s, e, m);
    vstd::arithmetic::div_mod::lemma_add_mod_noop(a, s * e, m);
}

/// The constant `v` (`-1` or `1`) as a polynomial.
fn unit_lit(v: i64) -> (r: Polynomial)
    requires
        v == 1 || v == -1,
    ensures
        forall|env: Env| #[trigger] eval(r@, env) == (v as int) % (modulus() as int),
{
    if v >= 0 {
        Polynomial::lit(&Fe::one())
    } else {
        let r = Polynomial::lit(&Fe::one()).neg();
        assert((-1int) % (modulus() as int) == modulus() - 1) by {
            vstd::arithmetic::div_mod::lemma_fundamental_div_mod(-1, modulus() as int);
            vstd::arithmetic::div_mod::lemma_mod_bound(-1, modulus() as int);
        }
        r
    }
}

/// Coefficient-form slots, over the multi-indices `dst_idx` of `n2`
/// variables, of the multilinear polynomial whose evaluations on the
/// hypercube `{0, 1}^n1` are `polys`.
fn lagrange_lift(polys: &Vec<Polynomial>, n1: usize, n2: usize, dst_idx: &Vec<Vec<usize>>) -> (r: Vec<Polynomial>)
    requires
        polys@.len() == pow2(n1 as nat),
        pow2(n1 as nat) <= usize::MAX,
    ensures
        r@.len() == dst_idx@.len(),
        forall|ir: int, env: Env| 0 <= ir < r@.len() ==> #[trigger] eval(r@[ir]@, env)
            == lag_sum(pviews(polys@), n1 as nat, n2 as nat, dst_idx@[ir]@, env, pow2(n1 as nat)) % (modulus() as int),
{
    let ghost ps = pviews(polys@);
    let ghost md = modulus() as int;
    let src_hcube = hypercube(n1);
    let mut out: Vec<Polynomial> = Vec::new();
    let mut t: usize = 0;
    while t < dst_idx.len()
        invariant
            t <= dst_idx@.len(),
            out@.len() == t,
            forall|q: int| 0 <= q < t ==> #[trigger] out@[q]@ == lit(0),
        decreases dst_idx@.len() - t,
    {
        out.push(Polynomial::zero());
        t = t + 1;
    }
    assert forall|ir: int, env: Env| 0 <= ir < out@.len() implies #[trigger] eval(out@[ir]@, env)
        == lag_sum(ps, n1 as nat, n2 as nat, dst_idx@[ir]@, env, 0) % md by {
    }
    let mut j: usize = 0;
    while j < src_hcube.len()
        invariant
            j <= src_hcube@.len(),
            src_hcube@.len() == pow2(n1 as nat),
            forall|q: int| 0 <= q < src_hcube@.len() ==> #[trigger] src_hcube@[q]@ == cube_point(q as nat, n1 as nat),
            polys@.len() == pow2(n1 as nat),
            ps == pviews(polys@),
            md == modulus() as int,
            out@.len() == dst_idx@.len(),
            forall|ir: int, env: Env| 0 <= ir < out@.len() ==> #[trigger] eval(out@[ir]@, env)
                == lag_sum(ps, n1 as nat, n2 as nat, dst_idx@[ir]@, env, j as nat) % md,
        decreases src_hcube@.len() - j,
    {
        let src_b = &src_hcube[j];
        let ghost b = cube_point(j as nat, n1 as nat);
        assert(src_b@ == b);
        let mut ir: usize = 0;
        while ir < dst_idx.len()
            invariant
                j < src_hcube@.len(),
                src_hcube@.len() == pow2(n1 as nat),
                polys@.len() == pow2(n1 as nat),
                src_b@ == b,
                b == cube_point(j as nat, n1 as nat),
                b.len() == n1,
                ps == pviews(polys@),
                md == modulus() as int,
                ir <= dst_idx@.len(),
                out@.len() == dst_idx@.len(),
                forall|q: int, env: Env| 0 <= q < ir ==> #[trigger] eval(out@[q]@, env)
                    == lag_sum(ps, n1 as nat, n2 as nat, dst_idx@[q]@, env, (j + 1) as nat) % md,
                forall|q: int, env: Env| ir <= q < out@.len() ==> #[trigger] eval(out@[q]@, env)
                    == lag_sum(ps, n1 as nat, n2 as nat, dst_idx@[q]@, env, j as nat) % md,
            decreases dst_idx@.len() - ir,
        {
            let k = &dst_idx[ir];
            let mut scalar: i64 = 1;
            let mut i: usize = 0;
            let mut big = false;
            while i < n1
                invariant_except_break
                    i <= n1,
                    b.len() == n1,
                    src_b@ == b,
                    !big,
                    scalar == lag_prefix(b, k@, i as nat),
                    forall|t: int| 0 <= t < i ==> entry(k@, t) < 2,
                ensures
                    big ==> scalar == 0 && exists|t: int| 0 <= t < n1 && entry(k@, t) >= 2,
                    !big ==> scalar == lag_prefix(b, k@, n1 as nat) && forall|t: int| 0 <= t < n1 ==> entry(k@, t) < 2,
                decreases n1 - i,
            {
                let ki = if i < k.len() { k[i] } else { 0 };
                assert(ki == entry(k@, i as int));
                if ki >= 2 {
                    scalar = 0;
                    big = true;
                    break;
                }
                proof {
                    lemma_lag_prefix_unit(b, k@, i as nat);
                }
                let c: i64 = if src_b[i] == 0 {
                    if ki == 0 { 1 } else { -1 }
                } else {
                    if ki == 0 { 0 } else { 1 }
                };
                assert(c == lag1(b[i as int], ki));
                scalar = scalar * c;
                i = i + 1;
            }
            let mut late = false;
            if n2 > n1 {
                let mut i2: usize = n1;
                while i2 < n2
                    invariant_except_break
                        n1 <= i2 <= n2,
                        !late,
                        forall|t: int| n1 <= t < i2 ==> entry(k@, t) == 0,
                    ensures
                        late ==> exists|t: int| n1 <= t < n2 && entry(k@, t) != 0,
                        !late ==> forall|t: int| n1 <= t < n2 ==> entry(k@, t) == 0,
                    decreases n2 - i2,
                {
                    let ki = if i2 < k.len() { k[i2] } else { 0 };
                    assert(ki == entry(k@, i2 as int));
                    if ki != 0 {
                        late = true;
                        break;
                    }
                    i2 = i2 + 1;
                }
                if late {
                    scalar = 0;
                }
            }
            proof {
                lemma_lag_prefix_unit(b, k@, n1 as nat);
            }
            assert(scalar == lag_coeff(b, k@, n1 as nat, n2 as nat));
            if scalar != 0 {
                let term = unit_lit(scalar).mul(&polys[j]);
                let sum = out[ir].add(&term);
                proof {
                    assert forall|env: Env| #[trigger] eval(sum@, env)
                        == lag_sum(ps, n1 as nat, n2 as nat, k@, env, (j + 1) as nat) % md by {
                        let a = lag_sum(ps, n1 as nat, n2 as nat, k@, env, j as nat);
                        let e = eval(ps[j as int], env) as int;
                        assert(eval(polys@[j as int]@, env) == e);
                        lemma_mod_acc(a, scalar as int, e, md);
                    }
                }
                out.set(ir, sum);
            } else {
                proof {
                    assert forall|env: Env|
                        lag_sum(ps, n1 as nat, n2 as nat, k@, env, (j + 1) as nat)
                            == lag_sum(ps, n1 as nat, n2 as nat, k@, env, j as nat) by {
                        let e = eval(ps[j as int], env) as int;
                        assert(lag_coeff(cube_point(j as nat, n1 as nat), k@, n1 as nat, n2 as nat) == 0);
                        assert(0 * e == 0);
                    }
                }
            }
            ir = ir + 1;
        }
        j = j + 1;
    }
    out
}


pub proof fn lemma_position_exists(t: Seq<Seq<usize>>, k: Seq<usize>, i: int)
    requires
        0 <= i < t.len(),
        t[i] == k,
    ensures
        position(t, k) is Some,
    decreases i,
{
    if forall|j: int| 0 <= j < i ==> t[j] != k {
        assert(is_first(t, k, i));
    } else {
        let j = choose|j: int| 0 <= j < i && t[j] == k;
        lemma_position_exists(t, k, j);
    }
}

proof fn lemma_sum_pad(k: Seq<usize>, n: nat)
    requires
        k.len() <= n,
    ensures
        seq_sum(pad(k, n)) == seq_sum(k),
    decreases k.len(),
{
    if k.len() == 0 {
        assert(pad(k, n) =~= zeros(n));
        lemma_sum_zero(zeros(n));
    } else {
        lemma_sum_pad(k.drop_first(), (n - 1) as nat);
        assert(pad(k, n).drop_first() =~= pad(k.drop_first(), (n - 1) as nat));
    }
}

/// Zero-extending the multi-indices of `n1` variables and degree `m1` to
/// `n2 >= n1` variables keeps them pairwise distinct and lands each one in
/// the enumeration for degree `m2 >= m1`.
pub proof fn lemma_embedding_fits(s: Seq<Seq<usize>>, t: Seq<Seq<usize>>, n1: nat, m1: nat, n2: nat, m2: nat)
    requires
        enumerates(s, n1, m1),
        enumerates(t, n2, m2),
        n1 <= n2,
        m1 <= m2,
    ensures
        forall|a: int| 0 <= a < s.len() ==> #[trigger] position(t, pad(s[a], n2)) is Some,
        forall|a: int, b: int| 0 <= a < s.len() && 0 <= b < s.len() && a != b ==> pad(s[a], n2) != pad(s[b], n2),
{
    assert forall|a: int| 0 <= a < s.len() implies #[trigger] position(t, pad(s[a], n2)) is Some by {
        assert(is_multi_index(s[a], n1, m1));
        lemma_sum_pad(s[a], n2);
        assert(is_multi_index(pad(s[a], n2), n2, m2));
        let i = choose|i: int| 0 <= i < t.len() && #[trigger] t[i] == pad(s[a], n2);
        lemma_position_exists(t, pad(s[a], n2), i);
    }
    assert forall|a: int, b: int| 0 <= a < s.len() && 0 <= b < s.len() && a != b implies pad(s[a], n2) != pad(s[b], n2) by {
        assert(is_multi_index(s[a], n1, m1));
        assert(is_multi_index(s[b], n1, m1));
        if pad(s[a], n2) == pad(s[b], n2) {
            assert forall|i: int| 0 <= i < n1 implies s[a][i] == s[b][i] by {
                assert(pad(s[a], n2)[i] == pad(s[b], n2)[i]);
            }
            assert(s[a] =~= s[b]);
            lemma_enumeration_position(s, n1, m1, a, b);
        }
    }
}

/// `out` holds source polynomial `a` at the position in `tgt` of the
/// zero-extension of `src[a]` to `n` variables, and zero elsewhere.
pub open spec fn placed(out: Seq<PolyV>, ps: Seq<PolyV>, src: Seq<Seq<usize>>, tgt: Seq<Seq<usize>>, n: nat) -> bool {
    &&& out.len() == tgt.len()
    &&& forall|a: int| 0 <= a < src.len() ==> #[trigger] position(tgt, pad(src[a], n)) is Some
    &&& forall|a: int| 0 <= a < src.len() ==> out[#[trigger] position(tgt, pad(src[a], n))->0] == ps[a]
    &&& forall|i: int|
        0 <= i < tgt.len() && (forall|a: int| 0 <= a < src.len() ==> #[trigger] position(tgt, pad(src[a], n))->0 != i)
            ==> out[i] == lit(0)
}

/// The shape pairs [`PolySource::lift_to`] converts between: equal shapes,
/// base to base, and polynomial shapes into ones at least as wide.
pub open spec fn liftable(s: TypV, t: TypV) -> bool {
    &&& plen(s) <= plen(t)
    &&& (s == t || match (s, t) {
        (TypV::Base(_), TypV::Base(_)) => true,
        (TypV::Uni(_), TypV::Uni(_)) => true,
        (TypV::Mle(_), TypV::Mle(_)) => true,
        (TypV::Mle(n1), TypV::Uni(m2)) => n1 == 1 && m2 >= 1,
        (TypV::VPoly(n1, m1), TypV::VPoly(n2, m2)) => n1 <= n2 && m1 <= m2,
        (TypV::Uni(m1), TypV::VPoly(n2, m2)) => n2 >= 1 && m1 <= m2,
        (TypV::Mle(n1), TypV::VPoly(n2, m2)) => n1 <= n2 && m2 >= 1,
        _ => false,
    })
}

/// `out` is `ps` followed by zeros up to `plen(t)` slots.
pub open spec fn zero_padded(out: Seq<PolyV>, ps: Seq<PolyV>, t: TypV) -> bool {
    out == ps + zero_polys((plen(t) - ps.len()) as nat)
}

/// What lifting slots `ps` of shape `s` to shape `t` yields.
pub open spec fn lifted(s: TypV, t: TypV, ps: Seq<PolyV>, out: Seq<PolyV>) -> bool {
    if s == t {
        out == ps
    } else {
        match (s, t) {
            (TypV::Base(_), TypV::Base(_)) => out == ps,
            (TypV::Uni(_), TypV::Uni(_)) => zero_padded(out, ps, t),
            (TypV::Mle(_), TypV::Mle(_)) => zero_padded(out, ps, t),
            (TypV::Mle(_), TypV::Uni(_)) => {
                &&& out.len() == plen(t)
                &&& out[0] == ps[0]
                &&& crate::polyv::is_diff(out[1], ps[1], ps[0])
                &&& forall|i: int| 2 <= i < out.len() ==> out[i] == lit(0)
            },
            (TypV::VPoly(n1, m1), TypV::VPoly(n2, m2)) => if n1 == n2 {
                zero_padded(out, ps, t)
            } else {
                placed(out, ps, mi_seq(n1, m1), mi_seq(n2, m2), n2)
            },
            (TypV::Uni(m1), TypV::VPoly(n2, m2)) => if n2 == 1 {
                zero_padded(out, ps, t)
            } else {
                placed(out, ps, mi_seq(1, m1), mi_seq(n2, m2), n2)
            },
            (TypV::Mle(n1), TypV::VPoly(n2, m2)) => {
                &&& out.len() == plen(t)
                &&& forall|i: int, env: Env| 0 <= i < out.len() ==> #[trigger] eval(out[i], env)
                    == lag_sum(ps, n1, n2, mi_seq(n2, m2)[i], env, pow2(n1)) % (modulus() as int)
            },
            _ => false,
        }
    }
}

/// Number of variables of a coefficient-form polynomial shape (`Uni` has
/// one).
pub open spec fn arity(t: TypV) -> nat {
    match t {
        TypV::VPoly(n, _) => n,
        _ => 1,
    }
}

/// A univariate or multivariate coefficient-form shape.
pub open spec fn coeff_form(t: TypV) -> bool {
    t is Uni || t is VPoly
}

/// Law: between coefficient-form shapes of one number of variables,
/// lifting in two steps gives what lifting directly gives: both pad the
/// coefficients with zeros.
pub proof fn lemma_lift_two_steps(s: TypV, t1: TypV, t2: TypV, ps: Seq<PolyV>, o1: Seq<PolyV>, o2: Seq<PolyV>, o3: Seq<PolyV>)
    requires
        coeff_form(s),
        coeff_form(t1),
        coeff_form(t2),
        arity(s) == arity(t1),
        arity(t1) == arity(t2),
        arity(s) >= 1,
        ps.len() == plen(s),
        liftable(s, t1),
        liftable(t1, t2),
        liftable(s, t2),
        lifted(s, t1, ps, o1),
        lifted(t1, t2, o1, o2),
        lifted(s, t2, ps, o3),
    ensures
        o2 == o3,
        o3 == ps + zero_polys((plen(t2) - ps.len()) as nat),
{
    assert(o1 == ps + zero_polys((plen(t1) - ps.len()) as nat)) by {
        if s == t1 {
            assert(ps + zero_polys(0) =~= ps);
        }
    }
    assert(o1.len() == plen(t1));
    assert(o2 == o1 + zero_polys((plen(t2) - o1.len()) as nat)) by {
        if t1 == t2 {
            assert(o1 + zero_polys(0) =~= o1);
        }
    }
    assert(o3 == ps + zero_polys((plen(t2) - ps.len()) as nat)) by {
        if s == t2 {
            assert(ps + zero_polys(0) =~= ps);
        }
    }
    assert(o2 =~= o3);
}

/// The multi-index enumeration by which a coefficient-form shape lists its
/// coefficients.
pub open spec fn shape_indices(t: TypV) -> Seq<Seq<usize>> {
    match t {
        TypV::Uni(m) => mi_seq(1, m),
        TypV::VPoly(n, m) => mi_seq(n, m),
        _ => Seq::empty(),
    }
}

/// The degree bound of a coefficient-form shape.
pub open spec fn shape_degree(t: TypV) -> nat {
    match t {
        TypV::Uni(m) => m,
        TypV::VPoly(_, m) => m,
        _ => 0,
    }
}

/// The enumeration behind a coefficient-form shape exists, as
/// [`multi_indices`] builds it.
pub open spec fn indexed(t: TypV) -> bool {
    &&& shape_degree(t) <= usize::MAX
    &&& enumerates(shape_indices(t), arity(t), shape_degree(t))
}

/// Appending zeros to coefficients listed by a prefix of the enumeration
/// places each at its own multi-index.
proof fn lemma_padded_is_placed(out: Seq<PolyV>, ps: Seq<PolyV>, a: Seq<Seq<usize>>, c: Seq<Seq<usize>>, n: nat, m1: nat, m2: nat)
    requires
        enumerates(a, n, m1),
        enumerates(c, n, m2),
        m1 <= m2,
        ps.len() == a.len(),
        out == ps + zero_polys((c.len() - ps.len()) as nat),
    ensures
        placed(out, ps, a, c, n),
{
    lemma_enumeration_degree_prefix(a, c, n, m1, m2);
    assert forall|x: int| 0 <= x < a.len() implies #[trigger] position(c, pad(a[x], n)) == Some(x) by {
        assert(is_multi_index(a[x], n, m1));
        assert(pad(a[x], n) =~= a[x]);
        assert(c.take(a.len() as int)[x] == a[x]);
        assert(c[x] == a[x]);
        lemma_position_exists(c, a[x], x);
        let j = position(c, a[x])->0;
        assert(is_first(c, a[x], j));
        lemma_enumeration_position(c, n, m2, j, x);
    }
    assert forall|i: int|
        0 <= i < c.len() && (forall|x: int| 0 <= x < a.len() ==> #[trigger] position(c, pad(a[x], n))->0 != i)
        implies out[i] == lit(0) by {
        if i < a.len() {
            assert(position(c, pad(a[i], n))->0 == i);
        }
    }
}

/// Where a position is found, the entry there is what was looked for.
proof fn lemma_position_entry(t: Seq<Seq<usize>>, k: Seq<usize>)
    requires
        position(t, k) is Some,
    ensures
        0 <= position(t, k)->0 < t.len(),
        t[position(t, k)->0] == k,
{
    let i = choose|i: int| is_first(t, k, i);
    assert(is_first(t, k, i));
}

/// Placing through an intermediate enumeration places directly.
proof fn lemma_placed_compose(
    ps: Seq<PolyV>, o1: Seq<PolyV>, o2: Seq<PolyV>, o3: Seq<PolyV>,
    a: Seq<Seq<usize>>, b: Seq<Seq<usize>>, c: Seq<Seq<usize>>, na: nat, nb: nat, nc: nat,
)
    requires
        na <= nb <= nc,
        forall|x: int| 0 <= x < a.len() ==> (#[trigger] a[x]).len() == na,
        forall|y: int| 0 <= y < b.len() ==> (#[trigger] b[y]).len() == nb,
        ps.len() == a.len(),
        placed(o1, ps, a, b, nb),
        placed(o2, o1, b, c, nc),
        placed(o3, ps, a, c, nc),
    ensures
        o2 == o3,
{
    assert forall|x: int| 0 <= x < a.len() implies #[trigger] pad(b[position(b, pad(a[x], nb))->0], nc) == pad(a[x], nc) by {
        lemma_position_entry(b, pad(a[x], nb));
        assert(pad(pad(a[x], nb), nc) =~= pad(a[x], nc));
    }
    assert forall|i: int| 0 <= i < o3.len() implies o2[i] == o3[i] by {
        if exists|x: int| 0 <= x < a.len() && #[trigger] position(c, pad(a[x], nc))->0 == i {
            let x = choose|x: int| 0 <= x < a.len() && #[trigger] position(c, pad(a[x], nc))->0 == i;
            let y = position(b, pad(a[x], nb))->0;
            lemma_position_entry(b, pad(a[x], nb));
            assert(pad(b[y], nc) == pad(a[x], nc));
            assert(o1[y] == ps[x]);
            assert(position(c, pad(b[y], nc))->0 == i);
            assert(o2[i] == o1[y]);
        } else {
            assert(o3[i] == lit(0));
            if exists|y: int| 0 <= y < b.len() && #[trigger] position(c, pad(b[y], nc))->0 == i {
                let y = choose|y: int| 0 <= y < b.len() && #[trigger] position(c, pad(b[y], nc))->0 == i;
                assert(o2[i] == o1[y]);
                assert forall|x: int| 0 <= x < a.len() implies #[trigger] position(b, pad(a[x], nb))->0 != y by {
                    if position(b, pad(a[x], nb))->0 == y {
                        assert(pad(b[y], nc) == pad(a[x], nc));
                        assert(position(c, pad(a[x], nc))->0 == i);
                    }
                }
                assert(o1[y] == lit(0));
            }
        }
    }
    assert(o2 =~= o3);
}

/// A lift between coefficient-form shapes places each coefficient at the
/// zero-extension of its multi-index.
proof fn lemma_lift_places(s: TypV, t: TypV, ps: Seq<PolyV>, out: Seq<PolyV>)
    requires
        coeff_form(s),
        coeff_form(t),
        indexed(s),
        indexed(t),
        liftable(s, t),
        ps.len() == plen(s),
        lifted(s, t, ps, out),
    ensures
        placed(out, ps, shape_indices(s), shape_indices(t), arity(t)),
        out.len() == plen(t),
        shape_indices(s).len() == plen(s),
        shape_indices(t).len() == plen(t),
{
    lemma_enumeration_len(shape_indices(s), arity(s), shape_degree(s));
    lemma_enumeration_len(shape_indices(t), arity(t), shape_degree(t));
    lemma_binom_one(1 + shape_degree(s));
    lemma_binom_one(1 + shape_degree(t));
    let a = shape_indices(s);
    let c = shape_indices(t);
    if arity(s) == arity(t) {
        assert(shape_degree(s) <= shape_degree(t));
        assert(out == ps + zero_polys((c.len() - ps.len()) as nat)) by {
            if s == t {
                assert(ps + zero_polys(0) =~= ps);
            }
        }
        lemma_padded_is_placed(out, ps, a, c, arity(t), shape_degree(s), shape_degree(t));
    }
}

/// Law: between coefficient-form shapes (`Uni` counting as one variable),
/// with variables and degree never decreasing, lifting in two steps gives
/// what lifting directly gives.
pub proof fn lemma_lift_two_steps_wider(s: TypV, t1: TypV, t2: TypV, ps: Seq<PolyV>, o1: Seq<PolyV>, o2: Seq<PolyV>, o3: Seq<PolyV>)
    requires
        coeff_form(s),
        coeff_form(t1),
        coeff_form(t2),
        indexed(s),
        indexed(t1),
        indexed(t2),
        ps.len() == plen(s),
        liftable(s, t1),
        liftable(t1, t2),
        liftable(s, t2),
        lifted(s, t1, ps, o1),
        lifted(t1, t2, o1, o2),
        lifted(s, t2, ps, o3),
    ensures
        o2 == o3,
{
    lemma_lift_places(s, t1, ps, o1);
    lemma_lift_places(t1, t2, o1, o2);
    lemma_lift_places(s, t2, ps, o3);
    let a = shape_indices(s);
    let b = shape_indices(t1);
    assert forall|x: int| 0 <= x < a.len() implies (#[trigger] a[x]).len() == arity(s) by {
        assert(is_multi_index(a[x], arity(s), shape_degree(s)));
    }
    assert forall|y: int| 0 <= y < b.len() implies (#[trigger] b[y]).len() == arity(t1) by {
        assert(is_multi_index(b[y], arity(t1), shape_degree(t1)));
    }
    lemma_placed_compose(ps, o1, o2, o3, a, b, shape_indices(t2), arity(s), arity(t1), arity(t2));
}

/// The lifts that keep every slot in place: equal shapes, base to base,
/// `Uni` to `Uni`, `Mle` to `Mle`, `VPoly` to `VPoly` of as many variables,
/// and `Uni` to one-variable `VPoly`.
pub open spec fn in_place(s: TypV, t: TypV) -> bool {
    s == t || match (s, t) {
        (TypV::Base(_), TypV::Base(_)) => true,
        (TypV::Uni(_), TypV::Uni(_)) => true,
        (TypV::Mle(_), TypV::Mle(_)) => true,
        (TypV::VPoly(n1, _), TypV::VPoly(n2, _)) => n1 == n2,
        (TypV::Uni(_), TypV::VPoly(n2, _)) => n2 == 1,
        _ => false,
    }
}

/// Law: an in-place lift keeps the source slots as the result's first
/// slots and fills the remaining ones with zero.
pub proof fn lemma_lift_in_place(s: TypV, t: TypV, ps: Seq<PolyV>, out: Seq<PolyV>)
    requires
        liftable(s, t),
        in_place(s, t),
        ps.len() == plen(s),
        lifted(s, t, ps, out),
    ensures
        ps.len() <= out.len(),
        out.take(ps.len() as int) == ps,
        forall|i: int| ps.len() <= i < out.len() ==> out[i] == lit(0),
{
    if s == t || (s is Base && t is Base) {
        assert(out.take(ps.len() as int) =~= ps);
    } else {
        assert(out == ps + zero_polys((plen(t) - ps.len()) as nat));
        assert(out.take(ps.len() as int) =~= ps);
        assert forall|i: int| ps.len() <= i < out.len() implies out[i] == lit(0) by {
            assert(out[i] == zero_polys((plen(t) - ps.len()) as nat)[i - ps.len()]);
        }
    }
}

/// `polys` followed by zeros up to `len` slots.
fn zero_pad(polys: &Vec<Polynomial>, len: usize) -> (r: Vec<Polynomial>)
    requires
        polys@.len() <= len,
    ensures
        r@.len() == len,
        pviews(r@) == pviews(polys@) + zero_polys((len - polys@.len()) as nat),
{
    let mut out: Vec<Polynomial> = Vec::new();
    let mut i: usize = 0;
    while i < len
        invariant
            i <= len,
            polys@.len() <= len,
            out@.len() == i,
            forall|t: int| 0 <= t < i ==> #[trigger] out@[t]@ == (pviews(polys@) + zero_polys((len - polys@.len()) as nat))[t],
        decreases len - i,
    {
        if i < polys.len() {
            out.push(polys[i].clone());
        } else {
            out.push(Polynomial::zero());
        }
        i = i + 1;
    }
    assert(pviews(out@) =~= pviews(polys@) + zero_polys((len - polys@.len()) as nat));
    out
}

impl PolySource {
    /// Place source polynomial `j`, indexed by `source_indices[j]`, at the
    /// position of that multi-index zero-extended to `target_arity` among
    /// `target_indices`; every other slot is zero.
    pub fn embed_multi_indexed_polys(
        polys: &[Polynomial],
        source_indices: &[Vec<usize>],
        target_indices: &[Vec<usize>],
        target_arity: usize,
    ) -> (r: Vec<Polynomial>)
        requires
            forall|j: int|
                0 <= j < source_indices@.len()
                    && #[trigger] position(mi_views(target_indices@), pad(source_indices@[j]@, target_arity as nat)) is Some
                    ==> j < polys@.len(),
        ensures
            pviews(r@) == embed(
                pviews(polys@),
                mi_views(source_indices@),
                mi_views(target_indices@),
                target_arity as nat,
                source_indices@.len(),
            ),
    {
        let ghost ps = pviews(polys@);
        let ghost sv = mi_views(source_indices@);
        let ghost tv = mi_views(target_indices@);
        let mut out: Vec<Polynomial> = Vec::new();
        let mut i: usize = 0;
        while i < target_indices.len()
            invariant
                i <= target_indices@.len(),
                out@.len() == i,
                forall|t: int| 0 <= t < i ==> #[trigger] out@[t]@ == lit(0),
            decreases target_indices@.len() - i,
        {
            out.push(Polynomial::zero());
            i = i + 1;
        }
        assert(pviews(out@) =~= embed(ps, sv, tv, target_arity as nat, 0));
        let mut j: usize = 0;
        while j < source_indices.len()
            invariant
                j <= source_indices@.len(),
                ps == pviews(polys@),
                sv == mi_views(source_indices@),
                tv == mi_views(target_indices@),
                out@.len() == target_indices@.len(),
                pviews(out@) == embed(ps, sv, tv, target_arity as nat, j as nat),
                forall|a: int|
                    0 <= a < source_indices@.len()
                        && #[trigger] position(mi_views(target_indices@), pad(source_indices@[a]@, target_arity as nat)) is Some
                        ==> a < polys@.len(),
            decreases source_indices@.len() - j,
        {
            let padded = pad_index(&source_indices[j], target_arity);
            let found = find_index(target_indices, &padded);
            assert(sv[j as int] == source_indices@[j as int]@);
            match found {
                Some(p) => {
                    assert(position(mi_views(target_indices@), pad(source_indices@[j as int]@, target_arity as nat)) is Some);
                    out.set(p, polys[j].clone());
                    proof {
                        assert(pviews(out@) =~= embed(ps, sv, tv, target_arity as nat, j as nat).update(p as int, ps[j as int]));
                    }
                },
                None => {},
            }
            j = j + 1;
        }
        out
    }
}


impl PolySource {
    /// Lift the slots from `self.typ` to the shape `target`, giving exactly
    /// `plen(target)` slots. Equal and base shapes keep the slots; `Uni`,
    /// `Mle` and same-arity `VPoly` targets zero-pad (the narrower slot order
    /// is a prefix of the wider one); `Mle(1)` to `Uni` turns the evaluations
    /// `g0, g1` into the coefficients `g0, g1 - g0`; a `VPoly` (or `Uni`) of
    /// fewer variables is embedded by zero-extending each multi-index; `Mle`
    /// to `VPoly` expands the evaluations in the multilinear Lagrange basis.
    pub fn lift_to(&self, target: &ATyp) -> (r: PolySource)
        requires
            self.wf(),
            liftable(self.typ@, target@),
            plen(target@) <= usize::MAX,
        ensures
            r.typ@ == target@,
            r.wf(),
            lifted(self.typ@, target@, self.pv(), r.pv()),
    {
        let total = self.polys.len();
        let src_len = self.typ.physical_len();
        let dst_len = target.physical_len();
        let ghost ps = self.pv();
        if self.typ.same(target) {
            let out = zero_pad(&self.polys, src_len);
            assert(pviews(out@) =~= ps);
            return PolySource { polys: out, typ: target.clone() };
        }
        match (&self.typ, target) {
            (ATyp::Base(_), ATyp::Base(_)) => {
                let out = zero_pad(&self.polys, src_len);
                assert(pviews(out@) =~= ps);
                PolySource { polys: out, typ: target.clone() }
            },
            (ATyp::Uni(_), ATyp::Uni(_)) => {
                PolySource { polys: zero_pad(&self.polys, dst_len), typ: target.clone() }
            },
            (ATyp::Mle(_), ATyp::Mle(_)) => {
                PolySource { polys: zero_pad(&self.polys, dst_len), typ: target.clone() }
            },
            (ATyp::Mle(n1), ATyp::Uni(m2)) => {
                proof {
                    assert(pow2(1) == 2) by {
                        lemma2_to64();
                    }
                }
                let mut out: Vec<Polynomial> = Vec::new();
                out.push(self.polys[0].clone());
                out.push(self.polys[1].sub(&self.polys[0]));
                let mut i: usize = 2;
                while i < dst_len
                    invariant
                        2 <= i <= dst_len,
                        ps.len() >= 2,
                        out@.len() == i,
                        forall|t: int| 2 <= t < i ==> #[trigger] out@[t]@ == lit(0),
                        out@[0]@ == ps[0],
                        crate::polyv::is_diff(out@[1]@, ps[1], ps[0]),
                    decreases dst_len - i,
                {
                    out.push(Polynomial::zero());
                    i = i + 1;
                }
                PolySource { polys: out, typ: target.clone() }
            },
            (ATyp::VPoly(n1, m1), ATyp::VPoly(n2, m2)) => {
                if *n1 == *n2 {
                    PolySource { polys: zero_pad(&self.polys, dst_len), typ: target.clone() }
                } else {
                    let dst_idx = multi_indices(*n2, *m2);
                    let src_idx = multi_indices(*n1, *m1);
                    let out = PolySource::embed_multi_indexed_polys(self.polys.as_slice(), src_idx.as_slice(), dst_idx.as_slice(), *n2);
                    proof {
                        let sv = mi_seq(*n1 as nat, *m1 as nat);
                        let tv = mi_seq(*n2 as nat, *m2 as nat);
                        lemma_embedding_fits(sv, tv, *n1 as nat, *m1 as nat, *n2 as nat, *m2 as nat);
                        lemma_embed_placed(ps, sv, tv, *n2 as nat, sv.len());
                        assert(mi_views(dst_idx@).len() == dst_idx@.len());
                    }
                    PolySource { polys: out, typ: target.clone() }
                }
            },
            (ATyp::Uni(m1), ATyp::VPoly(n2, m2)) => {
                if *n2 == 1 {
                    PolySource { polys: zero_pad(&self.polys, dst_len), typ: target.clone() }
                } else {
                    let dst_idx = multi_indices(*n2, *m2);
                    let src_idx = multi_indices(1, *m1);
                    proof {
                        lemma_binom_one((1 + *m1) as nat);
                    }
                    let out = PolySource::embed_multi_indexed_polys(self.polys.as_slice(), src_idx.as_slice(), dst_idx.as_slice(), *n2);
                    proof {
                        let sv = mi_seq(1, *m1 as nat);
                        let tv = mi_seq(*n2 as nat, *m2 as nat);
                        lemma_embedding_fits(sv, tv, 1, *m1 as nat, *n2 as nat, *m2 as nat);
                        lemma_embed_placed(ps, sv, tv, *n2 as nat, sv.len());
                        assert(mi_views(dst_idx@).len() == dst_idx@.len());
                    }
                    PolySource { polys: out, typ: target.clone() }
                }
            },
            (ATyp::Mle(n1), ATyp::VPoly(n2, m2)) => {
                let dst_idx = multi_indices(*n2, *m2);
                let out = lagrange_lift(&self.polys, *n1, *n2, &dst_idx);
                proof {
                    assert forall|i: int| 0 <= i < dst_idx@.len() implies #[trigger] mi_seq(*n2 as nat, *m2 as nat)[i] == dst_idx@[i]@ by {
                        assert(mi_views(dst_idx@)[i] == dst_idx@[i]@);
                    }
                }
                PolySource { polys: out, typ: target.clone() }
            },
            _ => {
                proof {
                    assert(false);
                }
                PolySource { polys: Vec::new(), typ: target.clone() }
            },
        }
    }
}


/// Shapes a scalar constant can be injected into.
pub open spec fn injectable(t: TypV) -> bool {
    !(t is Vec) && !(t is Record)
}

/// The slots of the constant polynomial `p` in shape `t`: the single slot of
/// a base shape, the constant coefficient of a coefficient-form polynomial
/// (zero elsewhere), every evaluation of an `Mle`.
pub open spec fn injected(t: TypV, p: PolyV) -> Seq<PolyV> {
    match t {
        TypV::Uni(_) => Seq::new(plen(t), |i: int| if i == 0 { p } else { lit(0) }),
        TypV::VPoly(n, m) => Seq::new(plen(t), |i: int| if mi_seq(n, m)[i] == zeros(n) { p } else { lit(0) }),
        TypV::Mle(_) => Seq::new(plen(t), |i: int| p),
        _ => seq![p],
    }
}

/// Whether every entry of `k` is zero.
fn is_zero_index(k: &Vec<usize>) -> (r: bool)
    ensures
        r == (k@ == zeros(k@.len())),
{
    let mut i: usize = 0;
    while i < k.len()
        invariant
            i <= k@.len(),
            forall|t: int| 0 <= t < i ==> k@[t] == 0,
        decreases k@.len() - i,
    {
        if k[i] != 0 {
            assert(k@[i as int] != zeros(k@.len())[i as int]);
            return false;
        }
        i = i + 1;
    }
    assert(k@ =~= zeros(k@.len()));
    true
}

impl PolySource {
    /// Embed a scalar-like constant (one slot) into the shape `poly_typ` as
    /// the constant polynomial: its one slot for a base shape, the constant
    /// coefficient (slot of the all-zero multi-index) of `Uni`/`VPoly`, every
    /// evaluation of `Mle`.
    pub fn inject_constant_to(&self, poly_typ: &ATyp) -> (r: PolySource)
        requires
            scalar_like(self.typ@),
            self.polys@.len() == 1,
            injectable(poly_typ@),
            plen(poly_typ@) <= usize::MAX,
        ensures
            r.typ@ == poly_typ@,
            r.wf(),
            r.pv() == injected(poly_typ@, self.polys@[0]@),
    {
        let ghost p = self.polys@[0]@;
        let len = poly_typ.physical_len();
        let mut out: Vec<Polynomial> = Vec::new();
        match poly_typ {
            ATyp::Base(_) => {
                out.push(self.polys[0].clone());
                assert(pviews(out@) =~= injected(poly_typ@, p));
            },
            ATyp::Uni(_) => {
                let mut i: usize = 0;
                while i < len
                    invariant
                        i <= len,
                        len == plen(poly_typ@),
                        poly_typ@ is Uni,
                        self.polys@.len() == 1,
                        p == self.polys@[0]@,
                        out@.len() == i,
                        forall|t: int| 0 <= t < i ==> #[trigger] out@[t]@ == injected(poly_typ@, p)[t],
                    decreases len - i,
                {
                    if i == 0 {
                        out.push(self.polys[0].clone());
                    } else {
                        out.push(Polynomial::zero());
                    }
                    i = i + 1;
                }
                assert(pviews(out@) =~= injected(poly_typ@, p));
            },
            ATyp::VPoly(n, m) => {
                let indices = multi_indices(*n, *m);
                let ghost s = mi_seq(*n as nat, *m as nat);
                proof {
                    lemma_enumeration_first_zero(s, *n as nat, *m as nat);
                    assert(mi_views(indices@)[0] == indices@[0]@);
                }
                let mut zero_slot: usize = 0;
                while zero_slot < indices.len()
                    invariant
                        zero_slot <= indices@.len(),
                        mi_views(indices@) == s,
                        enumerates(s, *n as nat, *m as nat),
                        s[0] == zeros(*n as nat),
                        indices@.len() > 0,
                        forall|t: int| 0 <= t < zero_slot ==> s[t] != zeros(*n as nat),
                    decreases indices@.len() - zero_slot,
                {
                    assert(mi_views(indices@)[zero_slot as int] == indices@[zero_slot as int]@);
                    assert(is_multi_index(s[zero_slot as int], *n as nat, *m as nat));
                    if is_zero_index(&indices[zero_slot]) {
                        break;
                    }
                    zero_slot = zero_slot + 1;
                }
                assert(zero_slot == 0);
                let mut i: usize = 0;
                while i < indices.len()
                    invariant
                        i <= indices@.len(),
                        zero_slot == 0,
                        indices@.len() == len,
                        len == plen(poly_typ@),
                        poly_typ@ == TypV::VPoly(*n as nat, *m as nat),
                        mi_views(indices@) == s,
                        s == mi_seq(*n as nat, *m as nat),
                        enumerates(s, *n as nat, *m as nat),
                        s[0] == zeros(*n as nat),
                        self.polys@.len() == 1,
                        p == self.polys@[0]@,
                        out@.len() == i,
                        forall|t: int| 0 <= t < i ==> #[trigger] out@[t]@ == injected(poly_typ@, p)[t],
                    decreases indices@.len() - i,
                {
                    if i == zero_slot {
                        assert(injected(poly_typ@, p)[i as int] == p);
                        out.push(self.polys[0].clone());
                    } else {
                        proof {
                            if s[i as int] == zeros(*n as nat) {
                                lemma_enumeration_position(s, *n as nat, *m as nat, 0, i as int);
                            }
                            assert(injected(poly_typ@, p)[i as int] == lit(0));
                        }
                        out.push(Polynomial::zero());
                    }
                    i = i + 1;
                }
                assert(pviews(out@) =~= injected(poly_typ@, p));
            },
            ATyp::Mle(_) => {
                let mut i: usize = 0;
                while i < len
                    invariant
                        i <= len,
                        len == plen(poly_typ@),
                        poly_typ@ is Mle,
                        self.polys@.len() == 1,
                        p == self.polys@[0]@,
                        out@.len() == i,
                        forall|t: int| 0 <= t < i ==> #[trigger] out@[t]@ == injected(poly_typ@, p)[t],
                    decreases len - i,
                {
                    out.push(self.polys[0].clone());
                    i = i + 1;
                }
                assert(pviews(out@) =~= injected(poly_typ@, p));
            },
            _ => {
                proof {
                    assert(false);
                }
            },
        }
        PolySource { polys: out, typ: poly_typ.clone() }
    }
}


/// The constant polynomials with the given field values.
pub open spec fn lits(cs: Seq<nat>) -> Seq<PolyV> {
    cs.map_values(|c: nat| lit(c))
}

impl PolySource {
    /// One constant polynomial per scalar slot of the literal `v`.
    pub fn to_poly_value(v: &Value) -> (r: Vec<Polynomial>)
        requires
            const_readable(*v),
        ensures
            pviews(r@) == lits(value_consts(*v)),
        decreases v,
    {
        let mut out: Vec<Polynomial> = Vec::new();
        match v {
            Value::Scalar(c) => {
                out.push(Polynomial::lit(c));
                assert(pviews(out@) =~= lits(value_consts(*v)));
            },
            Value::Index(i) => {
                out.push(Polynomial::lit(&Fe::from_usize(*i)));
                assert(pviews(out@) =~= lits(value_consts(*v)));
            },
            Value::Unit => {
                assert(pviews(out@) =~= lits(value_consts(*v)));
            },
            Value::Vec(items) => {
                let mut k: usize = 0;
                while k < items.len()
                    invariant
                        k <= items@.len(),
                        *v == Value::Vec(*items),
                        items_readable(items@, items@.len()),
                        forall|j: int| 0 <= j < items@.len() ==> decreases_to!(v => #[trigger] items@[j]),
                        pviews(out@) == lits(items_consts(items@, k as nat)),
                    decreases items@.len() - k,
                {
                    proof {
                        lemma_items_readable(items@, items@.len(), k as int);
                    }
                    let part = PolySource::to_poly_value(&items[k]);
                    let ghost before = out@;
                    let mut t: usize = 0;
                    while t < part.len()
                        invariant
                            t <= part@.len(),
                            out@.len() == before.len() + t,
                            forall|q: int| 0 <= q < before.len() ==> #[trigger] out@[q] == before[q],
                            forall|q: int| 0 <= q < t ==> #[trigger] out@[before.len() + q]@ == part@[q]@,
                        decreases part@.len() - t,
                    {
                        out.push(part[t].clone());
                        t = t + 1;
                    }
                    assert forall|q: int| 0 <= q < out@.len() implies #[trigger] pviews(out@)[q] == (pviews(before) + pviews(part@))[q] by {
                        if q >= before.len() {
                            assert(out@[before.len() + (q - before.len())]@ == part@[q - before.len()]@);
                        }
                    }
                    assert(pviews(out@) =~= pviews(before) + pviews(part@));
                    assert(items_consts(items@, (k + 1) as nat) == items_consts(items@, k as nat) + value_consts(items@[k as int]));
                    assert(lits(items_consts(items@, (k + 1) as nat)) =~= lits(items_consts(items@, k as nat)) + lits(value_consts(items@[k as int])));
                    k = k + 1;
                }
            },
            Value::VecScalar(cs) => {
                let mut k: usize = 0;
                while k < cs.len()
                    invariant
                        k <= cs@.len(),
                        out@.len() == k,
                        forall|q: int| 0 <= q < k ==> #[trigger] out@[q]@ == lit(cs@[q].val()),
                    decreases cs@.len() - k,
                {
                    out.push(Polynomial::lit(&cs[k]));
                    k = k + 1;
                }
                assert(pviews(out@) =~= lits(value_consts(*v)));
            },
            Value::VecIndex(is) => {
                let mut k: usize = 0;
                while k < is.len()
                    invariant
                        k <= is@.len(),
                        out@.len() == k,
                        forall|q: int| 0 <= q < k ==> #[trigger] out@[q]@ == lit(is@[q] as nat),
                    decreases is@.len() - k,
                {
                    out.push(Polynomial::lit(&Fe::from_usize(is[k])));
                    k = k + 1;
                }
                assert(pviews(out@) =~= lits(value_consts(*v)));
            },
            _ => {
                proof {
                    assert(false);
                }
            },
        }
        out
    }
}

proof fn lemma_items_readable(items: Seq<Value>, k: nat, j: int)
    requires
        items_readable(items, k),
        k <= items.len(),
        0 <= j < k,
    ensures
        const_readable(items[j]),
    decreases k,
{
    if j < k - 1 {
        lemma_items_readable(items, (k - 1) as nat, j);
    }
}


/// The source slot that lands at position `i` when embedding `src` into
/// `tgt` over `n` variables.
pub open spec fn landing(src: Seq<Seq<usize>>, tgt: Seq<Seq<usize>>, n: nat, i: int) -> int {
    choose|a: int| 0 <= a < src.len() && #[trigger] position(tgt, pad(src[a], n)) == Some(i)
}

/// Value at `i` of the embedding of `ps`, unreduced.
pub open spec fn embed_val(ps: Seq<PolyV>, src: Seq<Seq<usize>>, tgt: Seq<Seq<usize>>, n: nat, i: int, env: Env) -> int {
    if exists|a: int| 0 <= a < src.len() && #[trigger] position(tgt, pad(src[a], n)) == Some(i) {
        eval(ps[landing(src, tgt, n, i)], env) as int
    } else {
        0
    }
}

/// The value under `env`, unreduced, of slot `i` after lifting slots `ps`
/// of shape `s` to shape `t` (see [`lifted`]).
pub open spec fn lift_val(s: TypV, t: TypV, ps: Seq<PolyV>, i: int, env: Env) -> int {
    if s == t {
        eval(ps[i], env) as int
    } else {
        match (s, t) {
            (TypV::Base(_), TypV::Base(_)) => eval(ps[i], env) as int,
            (TypV::Mle(_), TypV::Uni(_)) => if i == 0 {
                eval(ps[0], env) as int
            } else if i == 1 {
                eval(ps[1], env) - eval(ps[0], env)
            } else {
                0
            },
            (TypV::Mle(n1), TypV::VPoly(n2, m2)) => lag_sum(ps, n1, n2, mi_seq(n2, m2)[i], env, pow2(n1)),
            (TypV::VPoly(n1, m1), TypV::VPoly(n2, m2)) => if n1 == n2 {
                if i < ps.len() { eval(ps[i], env) as int } else { 0 }
            } else {
                embed_val(ps, mi_seq(n1, m1), mi_seq(n2, m2), n2, i, env)
            },
            (TypV::Uni(m1), TypV::VPoly(n2, m2)) => if n2 == 1 {
                if i < ps.len() { eval(ps[i], env) as int } else { 0 }
            } else {
                embed_val(ps, mi_seq(1, m1), mi_seq(n2, m2), n2, i, env)
            },
            _ => if i < ps.len() { eval(ps[i], env) as int } else { 0 },
        }
    }
}

/// Lifted slots take the values [`lift_val`] describes.
pub proof fn lemma_lift_vals(s: TypV, t: TypV, ps: Seq<PolyV>, out: Seq<PolyV>)
    requires
        liftable(s, t),
        ps.len() == plen(s),
        out.len() == plen(t),
        lifted(s, t, ps, out),
    ensures
        forall|i: int, env: Env| 0 <= i < out.len() ==> #[trigger] eval(out[i], env)
            == lift_val(s, t, ps, i, env) % (modulus() as int),
{
    assert forall|i: int, env: Env| 0 <= i < out.len() implies #[trigger] eval(out[i], env)
        == lift_val(s, t, ps, i, env) % (modulus() as int) by {
        let md = modulus() as int;
        if s == t {
            vstd::arithmetic::div_mod::lemma_small_mod(eval(ps[i], env), modulus());
        } else {
            match (s, t) {
                (TypV::Base(_), TypV::Base(_)) => {
                    vstd::arithmetic::div_mod::lemma_small_mod(eval(ps[i], env), modulus());
                },
                (TypV::Mle(_), TypV::Uni(_)) => {
                    if i == 0 {
                        vstd::arithmetic::div_mod::lemma_small_mod(eval(ps[0], env), modulus());
                    } else if i == 1 {
                        lemma_mod_diff(eval(ps[1], env) as int, eval(ps[0], env) as int, md);
                        vstd::arithmetic::div_mod::lemma_small_mod(eval(ps[1], env), modulus());
                        vstd::arithmetic::div_mod::lemma_small_mod(eval(ps[0], env), modulus());
                    } else {
                        vstd::arithmetic::div_mod::lemma_small_mod(0, modulus());
                    }
                },
                (TypV::Mle(n1), TypV::VPoly(n2, m2)) => {},
                (TypV::VPoly(n1, m1), TypV::VPoly(n2, m2)) => {
                    if n1 == n2 {
                        lemma_zero_padded_val(ps, out, t, i, env);
                    } else {
                        lemma_placed_val(out, ps, mi_seq(n1, m1), mi_seq(n2, m2), n2, i, env);
                    }
                },
                (TypV::Uni(m1), TypV::VPoly(n2, m2)) => {
                    if n2 == 1 {
                        lemma_zero_padded_val(ps, out, t, i, env);
                    } else {
                        lemma_placed_val(out, ps, mi_seq(1, m1), mi_seq(n2, m2), n2, i, env);
                    }
                },
                (TypV::Uni(_), TypV::Uni(_)) => {
                    lemma_zero_padded_val(ps, out, t, i, env);
                },
                (TypV::Mle(_), TypV::Mle(_)) => {
                    lemma_zero_padded_val(ps, out, t, i, env);
                },
                _ => {},
            }
        }
    }
}

proof fn lemma_zero_padded_val(ps: Seq<PolyV>, out: Seq<PolyV>, t: TypV, i: int, env: Env)
    requires
        zero_padded(out, ps, t),
        0 <= i < out.len(),
    ensures
        eval(out[i], env) == (if i < ps.len() { eval(ps[i], env) as int } else { 0 }) % (modulus() as int),
{
    if i < ps.len() {
        assert(out[i] == ps[i]);
        vstd::arithmetic::div_mod::lemma_small_mod(eval(ps[i], env), modulus());
    } else {
        assert(out[i] == lit(0));
        vstd::arithmetic::div_mod::lemma_small_mod(0, modulus());
    }
}

proof fn lemma_placed_val(out: Seq<PolyV>, ps: Seq<PolyV>, src: Seq<Seq<usize>>, tgt: Seq<Seq<usize>>, n: nat, i: int, env: Env)
    requires
        placed(out, ps, src, tgt, n),
        0 <= i < out.len(),
    ensures
        eval(out[i], env) == embed_val(ps, src, tgt, n, i, env) % (modulus() as int),
{
    if exists|a: int| 0 <= a < src.len() && #[trigger] position(tgt, pad(src[a], n)) == Some(i) {
        let a = landing(src, tgt, n, i);
        assert(position(tgt, pad(src[a], n))->0 == i);
        assert(out[i] == ps[a]);
        vstd::arithmetic::div_mod::lemma_small_mod(eval(ps[a], env), modulus());
    } else {
        assert forall|a: int| 0 <= a < src.len() implies #[trigger] position(tgt, pad(src[a], n))->0 != i by {
            assert(position(tgt, pad(src[a], n)) is Some);
        }
        assert(out[i] == lit(0));
        vstd::arithmetic::div_mod::lemma_small_mod(0, modulus());
    }
}


/// An operand as the encoders read it: the value of a graph node, or a
/// literal, each with its shape.
#[derive(Debug)]
pub enum Operand {
    Ref(Ref, ATyp),
    Value(Value, ATyp),
}

impl Operand {
    /// The operand's shape.
    pub fn typ(&self) -> (r: &ATyp)
        ensures
            *r == match self {
                Operand::Ref(_, t) => *t,
                Operand::Value(_, t) => *t,
            },
    {
        match self {
            Operand::Ref(_, t) => t,
            Operand::Value(_, t) => t,
        }
    }
}

/// The shape of an operand.
pub open spec fn op_typ(op: Operand) -> TypV {
    match op {
        Operand::Ref(_, t) => t@,
        Operand::Value(_, t) => t@,
    }
}

/// What [`PolySource::ref_vars`] needs: a named node whose slots fit, or a
/// literal readable as field constants.
pub open spec fn operand_ok(op: Operand, ideal: Ideal) -> bool {
    match op {
        Operand::Ref(r, _) => ideal.names().contains_key(r) && slots_ok(ideal.names()[r].typ),
        Operand::Value(v, _) => const_readable(v),
    }
}

/// The slot polynomials of an operand: the slot variables of the node's
/// variable, or the literal's constants.
pub open spec fn operand_polys(op: Operand, ideal: Ideal) -> Seq<PolyV> {
    match op {
        Operand::Ref(r, _) => var_polys(slot_list(ideal.names()[r])),
        Operand::Value(v, _) => lits(value_consts(v)),
    }
}

impl PolySource {
    /// One polynomial per slot of the operand.
    pub fn ref_vars(op: &Operand, ideal: &Ideal) -> (r: Vec<Polynomial>)
        requires
            ideal.wf(),
            operand_ok(*op, *ideal),
        ensures
            pviews(r@) == operand_polys(*op, *ideal),
    {
        match op {
            Operand::Ref(r, _) => {
                let var = ideal.find_ref(*r);
                let src = PolySource::from_vars(&var, var.typ.clone());
                assert(src.pv() =~= var_polys(slot_list(ideal.names()[*r])));
                src.polys
            },
            Operand::Value(v, _) => PolySource::to_poly_value(v),
        }
    }

    /// The operand's slot polynomials with its shape.
    pub fn from_ref_vars(ideal: &Ideal, op: &Operand) -> (r: PolySource)
        requires
            ideal.wf(),
            operand_ok(*op, *ideal),
        ensures
            r.typ@ == op_typ(*op),
            r.pv() == operand_polys(*op, *ideal),
    {
        let typ = op.typ().clone();
        let polys = PolySource::ref_vars(op, ideal);
        PolySource { polys, typ }
    }
}

} // verus!

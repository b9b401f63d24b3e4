//! Analysis types: the shapes of values and how many scalar slots each one
//! occupies.
use vstd::prelude::*;
use vstd::arithmetic::power2::*;

use crate::combinatorics::{binom, binomial};

verus! {

/// Scalar-shaped base types; each occupies one slot of its value.
#[derive(Clone, Copy, PartialEq, Eq, Structural, Debug)]
pub enum ABase {
    Scalar,
    Bool,
    Unit,
    G1,
    G2,
    Gt,
    /// A bounded index type holding the given number of values.
    Fin(usize),
}

/// The shape of a value: base type, vector, univariate polynomial
/// (coefficients), multilinear extension (evaluations), multivariate
/// polynomial with `n` variables and total degree `m`, or record.
#[derive(Debug)]
pub enum ATyp {
    Base(ABase),
    Vec(Box<ATyp>, usize),
    Uni(usize),
    Mle(usize),
    VPoly(usize, usize),
    Record(Vec<Field>),
}

/// A named record field.
#[derive(Debug)]
pub struct Field {
    pub name: String,
    pub typ: ATyp,
}

/// The mathematical shape of an [`ATyp`].
pub enum TypV {
    Base(ABase),
    Vec(Box<TypV>, nat),
    Uni(nat),
    Mle(nat),
    VPoly(nat, nat),
    Record(Seq<(Seq<char>, TypV)>),
}

impl ATyp {
    pub open spec fn view(&self) -> TypV
        decreases self,
    {
        match self {
            ATyp::Base(b) => TypV::Base(*b),
            ATyp::Vec(t, n) => TypV::Vec(Box::new(t.view()), *n as nat),
            ATyp::Uni(m) => TypV::Uni(*m as nat),
            ATyp::Mle(n) => TypV::Mle(*n as nat),
            ATyp::VPoly(n, m) => TypV::VPoly(*n as nat, *m as nat),
            ATyp::Record(fs) => TypV::Record(fields_view(fs@)),
        }
    }
}

/// The mathematical form of a list of record fields.
pub open spec fn fields_view(fs: Seq<Field>) -> Seq<(Seq<char>, TypV)>
    decreases fs,
{
    if fs.len() == 0 {
        Seq::empty()
    } else {
        fields_view(fs.drop_last()).push((fs.last().name@, fs.last().typ.view()))
    }
}

/// `fields_view` keeps length and positions.
pub proof fn lemma_fields_view(fs: Seq<Field>)
    ensures
        fields_view(fs).len() == fs.len(),
        forall|i: int| 0 <= i < fs.len() ==> #[trigger] fields_view(fs)[i] == (fs[i].name@, fs[i].typ.view()),
    decreases fs.len(),
{
    if fs.len() > 0 {
        lemma_fields_view(fs.drop_last());
    }
}

/// Number of scalar slots a value of shape `t` occupies.
pub open spec fn plen(t: TypV) -> nat
    decreases t,
{
    match t {
        TypV::Base(_) => 1,
        TypV::Vec(e, n) => n * plen(*e),
        TypV::Uni(m) => m + 1,
        TypV::Mle(n) => pow2(n),
        TypV::VPoly(n, m) => binom(n + m, n),
        TypV::Record(fs) => plen_fields(fs),
    }
}

/// Total slot count of a list of record fields.
pub open spec fn plen_fields(fs: Seq<(Seq<char>, TypV)>) -> nat
    decreases fs,
{
    if fs.len() == 0 {
        0
    } else {
        plen_fields(fs.drop_last()) + plen(fs.last().1)
    }
}

/// Slot count of the first `i` fields.
pub open spec fn plen_prefix(fs: Seq<Field>, i: int) -> nat {
    plen_fields(fields_view(fs.subrange(0, i)))
}

pub proof fn lemma_plen_prefix_step(fs: Seq<Field>, i: int)
    requires
        0 <= i < fs.len(),
    ensures
        plen_prefix(fs, i + 1) == plen_prefix(fs, i) + plen(fs[i].typ.view()),
{
    let x = fs.subrange(0, i + 1);
    assert(x.drop_last() =~= fs.subrange(0, i));
    assert(x.last() == fs[i]);
    let y = fields_view(fs.subrange(0, i));
    let p = (fs[i].name@, fs[i].typ.view());
    assert(fields_view(x) == y.push(p));
    assert(y.push(p).drop_last() =~= y);
    assert(y.push(p).last() == p);
}

/// `C(n, k) >= 1` for `k <= n`.
proof fn lemma_binom_pos(n: nat, k: nat)
    requires
        k <= n,
    ensures
        binom(n, k) >= 1,
    decreases n,
{
    if k > 0 && k < n {
        lemma_binom_pos((n - 1) as nat, (k - 1) as nat);
    } else if k == n {
        crate::combinatorics::lemma_binom_diag(n);
    }
}

pub proof fn lemma_plen_prefix_mono(fs: Seq<Field>, i: int, j: int)
    requires
        0 <= i <= j <= fs.len(),
    ensures
        plen_prefix(fs, i) <= plen_prefix(fs, j),
    decreases j - i,
{
    if i < j {
        lemma_plen_prefix_step(fs, j - 1);
        lemma_plen_prefix_mono(fs, i, j - 1);
    }
}

pub proof fn lemma_plen_prefix_full(fs: Seq<Field>)
    ensures
        plen_prefix(fs, fs.len() as int) == plen_fields(fields_view(fs)),
{
    assert(fs.subrange(0, fs.len() as int) =~= fs);
}

/// `C(N, k) >= N` for `0 < k < N`.
pub proof fn lemma_binom_at_least(nn: nat, k: nat)
    requires
        0 < k < nn,
    ensures
        binom(nn, k) >= nn,
    decreases nn,
{
    crate::combinatorics::lemma_binom_one((nn - 1) as nat);
    if k == 1 {
        crate::combinatorics::lemma_binom_one(nn);
    } else if k + 1 == nn {
        crate::combinatorics::lemma_binom_symmetric(nn, k);
        crate::combinatorics::lemma_binom_one(nn);
    } else {
        lemma_binom_at_least((nn - 1) as nat, (k - 1) as nat);
        lemma_binom_pos((nn - 1) as nat, k);
    }
}

/// `2^n` computed by doubling.
pub fn pow2_usize(n: usize) -> (r: usize)
    requires
        pow2(n as nat) <= usize::MAX,
    ensures
        r == pow2(n as nat),
{
    proof {
        lemma2_to64();
    }
    let mut r: usize = 1;
    let mut e: usize = 0;
    while e < n
        invariant
            e <= n,
            r == pow2(e as nat),
            pow2(n as nat) <= usize::MAX,
        decreases n - e,
    {
        proof {
            lemma_pow2_unfold((e + 1) as nat);
            if e + 1 < n {
                lemma_pow2_strictly_increases((e + 1) as nat, n as nat);
            }
        }
        r = r * 2;
        e = e + 1;
    }
    r
}

impl ATyp {
    pub fn scalar() -> (r: ATyp)
        ensures
            r@ == TypV::Base(ABase::Scalar),
    {
        ATyp::Base(ABase::Scalar)
    }

    pub fn boolean() -> (r: ATyp)
        ensures
            r@ == TypV::Base(ABase::Bool),
    {
        ATyp::Base(ABase::Bool)
    }

    pub fn unit() -> (r: ATyp)
        ensures
            r@ == TypV::Base(ABase::Unit),
    {
        ATyp::Base(ABase::Unit)
    }

    pub fn g1() -> (r: ATyp)
        ensures
            r@ == TypV::Base(ABase::G1),
    {
        ATyp::Base(ABase::G1)
    }

    pub fn g2() -> (r: ATyp)
        ensures
            r@ == TypV::Base(ABase::G2),
    {
        ATyp::Base(ABase::G2)
    }

    pub fn gt() -> (r: ATyp)
        ensures
            r@ == TypV::Base(ABase::Gt),
    {
        ATyp::Base(ABase::Gt)
    }

    pub fn fin(size: usize) -> (r: ATyp)
        ensures
            r@ == TypV::Base(ABase::Fin(size)),
    {
        ATyp::Base(ABase::Fin(size))
    }

    /// `Vec(inner, n)`.
    pub fn vec(inner: &ATyp, n: usize) -> (r: ATyp)
        ensures
            r@ == TypV::Vec(Box::new(inner@), n as nat),
    {
        ATyp::Vec(Box::new(inner.clone()), n)
    }

    /// Number of scalar slots of this shape.
    pub fn physical_len(&self) -> (r: usize)
        requires
            plen(self@) <= usize::MAX,
        ensures
            r == plen(self@),
        decreases self,
    {
        match self {
            ATyp::Base(_) => 1,
            ATyp::Vec(e, n) => {
                if *n == 0 {
                    assert(plen(self@) == *n as nat * plen(e@));
                    let ghost pe = plen(e@);
                    assert(*n as nat * pe == 0) by (nonlinear_arith)
                        requires
                            *n == 0,
                    ;
                    0
                } else {
                    proof {
                        let pe = plen(e@);
                        assert(pe <= *n as nat * pe) by (nonlinear_arith)
                            requires
                                *n as nat >= 1,
                        ;
                    }
                    let l = e.physical_len();
                    assert(plen(self@) == *n as nat * plen(e@));
                    *n * l
                }
            },
            ATyp::Uni(m) => *m + 1,
            ATyp::Mle(n) => pow2_usize(*n),
            ATyp::VPoly(n, m) => {
                if *n == 0 || *m == 0 {
                    proof {
                        if *n == 0 {
                            assert(binom((*n + *m) as nat, 0) == 1);
                        } else {
                            crate::combinatorics::lemma_binom_diag(*n as nat);
                        }
                    }
                    1
                } else {
                    proof {
                        lemma_binom_at_least((*n + *m) as nat, *n as nat);
                    }
                    binomial(*n + *m, *n)
                }
            },
            ATyp::Record(fs) => {
                let mut total: usize = 0;
                let mut i: usize = 0;
                proof {
                    lemma_plen_prefix_full(fs@);
                    assert(fs@.subrange(0, 0) =~= Seq::<Field>::empty());
                }
                while i < fs.len()
                    invariant
                        i <= fs@.len(),
                        total == plen_prefix(fs@, i as int),
                        plen_prefix(fs@, fs@.len() as int) <= usize::MAX,
                        forall|j: int| 0 <= j < fs@.len() ==> decreases_to!(self => #[trigger] fs@[j].typ),
                    decreases fs@.len() - i,
                {
                    proof {
                        lemma_plen_prefix_step(fs@, i as int);
                        lemma_plen_prefix_mono(fs@, i as int + 1, fs@.len() as int);
                    }
                    let l = fs[i].typ.physical_len();
                    total = total + l;
                    i = i + 1;
                }
                assert(plen(self@) == plen_fields(fields_view(fs@)));
                total
            },
        }
    }
}

impl Clone for ATyp {
    fn clone(&self) -> (r: Self)
        ensures
            r@ == self@,
        decreases self,
    {
        match self {
            ATyp::Base(b) => ATyp::Base(*b),
            ATyp::Vec(e, n) => {
                let inner: &ATyp = e;
                ATyp::Vec(Box::new(inner.clone()), *n)
            },
            ATyp::Uni(m) => ATyp::Uni(*m),
            ATyp::Mle(n) => ATyp::Mle(*n),
            ATyp::VPoly(n, m) => ATyp::VPoly(*n, *m),
            ATyp::Record(fs) => {
                let mut out: Vec<Field> = Vec::new();
                let mut i: usize = 0;
                while i < fs.len()
                    invariant
                        i <= fs@.len(),
                        out@.len() == i,
                        forall|j: int| 0 <= j < i ==> #[trigger] out@[j].name@ == fs@[j].name@ && out@[j].typ@ == fs@[j].typ@,
                        forall|j: int| 0 <= j < fs@.len() ==> decreases_to!(self => #[trigger] fs@[j].typ),
                    decreases fs@.len() - i,
                {
                    let t = fs[i].typ.clone();
                    out.push(Field { name: fs[i].name.clone(), typ: t });
                    i = i + 1;
                }
                proof {
                    lemma_fields_view(out@);
                    lemma_fields_view(fs@);
                    assert(fields_view(out@) =~= fields_view(fs@));
                }
                ATyp::Record(out)
            },
        }
    }
}

impl Clone for Field {
    fn clone(&self) -> (r: Self)
        ensures
            r.name@ == self.name@,
            r.typ@ == self.typ@,
    {
        Field { name: self.name.clone(), typ: self.typ.clone() }
    }
}

/// Whether a shape contains a polynomial type (`Uni`/`Mle`/`VPoly`) at any
/// nesting depth, through vectors and record fields.
pub open spec fn has_poly(t: TypV) -> bool
    decreases t, 0nat,
{
    match t {
        TypV::Uni(_) | TypV::Mle(_) | TypV::VPoly(_, _) => true,
        TypV::Vec(e, _) => has_poly(*e),
        TypV::Record(fs) => has_poly_fields(fs, fs.len()),
        _ => false,
    }
}

/// Whether one of the first `k` fields contains a polynomial type.
pub open spec fn has_poly_fields(fs: Seq<(Seq<char>, TypV)>, k: nat) -> bool
    decreases fs, k,
{
    if k == 0 || k > fs.len() {
        false
    } else {
        has_poly_fields(fs, (k - 1) as nat) || has_poly(fs[k - 1].1)
    }
}

/// Scalar-like shapes: field scalars and bounded indices.
pub open spec fn scalar_like(t: TypV) -> bool {
    t matches TypV::Base(ABase::Scalar) || t matches TypV::Base(ABase::Fin(_))
}

/// `(variables, degree)` of a coefficient-form polynomial shape; `Uni(m)` is
/// `VPoly(1, m)`.
pub open spec fn poly_shape(t: TypV) -> Option<(nat, nat)> {
    match t {
        TypV::VPoly(n, m) => Some((n, m)),
        TypV::Uni(m) => Some((1nat, m)),
        _ => None,
    }
}

/// A field with a polynomial type makes the fields contain one.
pub proof fn lemma_has_poly_field(fs: Seq<(Seq<char>, TypV)>, k: nat, i: int)
    requires
        0 <= i < k <= fs.len(),
        has_poly(fs[i].1),
    ensures
        has_poly_fields(fs, k),
    decreases k,
{
    if i < k - 1 {
        lemma_has_poly_field(fs, (k - 1) as nat, i);
    }
}

/// Recursively checks whether `typ` contains a polynomial type at any
/// nesting depth.
pub fn has_poly_type(typ: &ATyp) -> (r: bool)
    ensures
        r == has_poly(typ@),
    decreases typ@,
{
    match typ {
        ATyp::Uni(_) | ATyp::Mle(_) | ATyp::VPoly(_, _) => true,
        ATyp::Vec(inner, n) => {
            proof {
                let tv = TypV::Vec(Box::new(inner@), *n as nat);
                assert(tv->Vec_0 == inner@);
                assert(decreases_to!(tv => tv->Vec_0));
            }
            has_poly_type(inner)
        },
        ATyp::Record(fs) => {
            proof {
                lemma_fields_view(fs@);
            }
            let ghost fv = fields_view(fs@);
            let mut i: usize = 0;
            while i < fs.len()
                invariant
                    i <= fs@.len(),
                    fv == fields_view(fs@),
                    fv.len() == fs@.len(),
                    forall|j: int| 0 <= j < fs@.len() ==> #[trigger] fv[j] == (fs@[j].name@, fs@[j].typ@),
                    typ@ == TypV::Record(fv),
                    !has_poly_fields(fv, i as nat),
                decreases fs@.len() - i,
            {
                assert(fv[i as int] == (fs@[i as int].name@, fs@[i as int].typ@));
                proof {
                    let tv = TypV::Record(fv);
                    assert(tv->Record_0 == fv);
                    assert(decreases_to!(tv => tv->Record_0));
                    assert(decreases_to!(fv => fv[i as int]));
                    assert(decreases_to!(fv[i as int] => fv[i as int].1));
                    assert(decreases_to!(tv => fv[i as int].1));
                }
                if has_poly_type(&fs[i].typ) {
                    proof {
                        lemma_has_poly_field(fv, fv.len(), i as int);
                    }
                    return true;
                }
                i = i + 1;
            }
            false
        },
        _ => false,
    }
}

impl ATyp {
    /// Structural equality of shapes.
    pub fn same(&self, other: &ATyp) -> (r: bool)
        ensures
            r == (self@ == other@),
        decreases self,
    {
        match (self, other) {
            (ATyp::Base(a), ATyp::Base(b)) => *a == *b,
            (ATyp::Vec(a, n), ATyp::Vec(b, m)) => {
                if *n != *m {
                    return false;
                }
                let ai: &ATyp = a;
                let bi: &ATyp = b;
                ai.same(bi)
            },
            (ATyp::Uni(a), ATyp::Uni(b)) => *a == *b,
            (ATyp::Mle(a), ATyp::Mle(b)) => *a == *b,
            (ATyp::VPoly(a, b), ATyp::VPoly(c, d)) => *a == *c && *b == *d,
            (ATyp::Record(fa), ATyp::Record(fb)) => {
                proof {
                    lemma_fields_view(fa@);
                    lemma_fields_view(fb@);
                }
                if fa.len() != fb.len() {
                    assert(fields_view(fa@).len() != fields_view(fb@).len());
                    return false;
                }
                let mut i: usize = 0;
                while i < fa.len()
                    invariant
                        self@ == TypV::Record(fields_view(fa@)),
                        other@ == TypV::Record(fields_view(fb@)),
                        fa@.len() == fb@.len(),
                        i <= fa@.len(),
                        forall|j: int| 0 <= j < i ==> #[trigger] fields_view(fa@)[j] == fields_view(fb@)[j],
                        fields_view(fa@).len() == fa@.len(),
                        fields_view(fb@).len() == fb@.len(),
                        forall|j: int| 0 <= j < fa@.len() ==> #[trigger] fields_view(fa@)[j] == (fa@[j].name@, fa@[j].typ.view()),
                        forall|j: int| 0 <= j < fb@.len() ==> #[trigger] fields_view(fb@)[j] == (fb@[j].name@, fb@[j].typ.view()),
                        forall|j: int| 0 <= j < fa@.len() ==> decreases_to!(self => #[trigger] fa@[j].typ),
                    decreases fa@.len() - i,
                {
                    if fa[i].name != fb[i].name {
                        assert(fields_view(fa@)[i as int] != fields_view(fb@)[i as int]);
                        return false;
                    }
                    if !fa[i].typ.same(&fb[i].typ) {
                        assert(fields_view(fa@)[i as int] != fields_view(fb@)[i as int]);
                        return false;
                    }
                    i = i + 1;
                }
                assert(fields_view(fa@) =~= fields_view(fb@));
                true
            },
            _ => false,
        }
    }
}

} // verus!

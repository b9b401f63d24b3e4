//! The special-soundness encoding: parameter checks, the names of the
//! per-copy variables, and the d-equations that force sibling transcript
//! copies to differ in their challenges.
use vstd::prelude::*;

use crate::field::{modulus, Fe};
use crate::ideal::Ideal;
use crate::namespace::IdealBuilder;
use crate::poly::Polynomial;
use crate::poly_source::pviews;
use crate::polyv::{eval, lemma_mod_diff, Env, PolyV};
use crate::text::{dec, lemma_path_injective, path, push_decimal, push_path, push_sep, sep};
use crate::typ::{ABase, ATyp, TypV};
use crate::var::{copy_index, views, Qualifier, Var, VarV};

verus! {

broadcast use {crate::field::lemma_val_lt, crate::polyv::lemma_eval_lt};

proof fn lemma_path_push(p: Seq<usize>, c: usize)
    ensures
        path(p.push(c)) == if p.len() == 0 {
            dec(c as nat)
        } else {
            path(p) + sep() + dec(c as nat)
        },
{
    assert(p.push(c).drop_last() =~= p);
}

/// The copy suffix `p_1::...::p_k::copy_idx` (just `copy_idx` for an empty
/// prefix).
pub fn format_suffix(prefix: &[usize], copy_idx: usize) -> (r: String)
    ensures
        r@ == path(prefix@.push(copy_idx)),
{
    let mut s = String::new();
    push_path(&mut s, prefix);
    if prefix.len() > 0 {
        push_sep(&mut s);
    }
    push_decimal(&mut s, copy_idx);
    proof {
        lemma_path_push(prefix@, copy_idx);
        if prefix@.len() == 0 {
            assert(prefix@ =~= Seq::<usize>::empty());
        }
        assert(s@ =~= path(prefix@.push(copy_idx)));
    }
    s
}

/// Law: the copy suffix determines its prefix and copy index; distinct
/// ones are rendered differently.
pub proof fn lemma_suffix_injective(p1: Seq<usize>, c1: usize, p2: Seq<usize>, c2: usize)
    requires
        path(p1.push(c1)) == path(p2.push(c2)),
    ensures
        p1 == p2,
        c1 == c2,
{
    lemma_path_injective(p1.push(c1), p2.push(c2));
    assert(p1 =~= p1.push(c1).drop_last());
    assert(p2 =~= p2.push(c2).drop_last());
    assert(p1.push(c1).last() == c1);
}

/// The literal `__zippel::soundness::d::`.
pub open spec fn d_name_prefix() -> Seq<char> {
    "__zippel::soundness::d::"@
}

/// The name `__zippel::soundness::d::p_1::...::p_k::m::n::k` of the
/// difference variable for copy pair `(m, n)` and slot `k`.
pub fn format_d_name(prefix: &[usize], m: usize, n: usize, k: usize) -> (r: String)
    ensures
        r@ == d_name_prefix() + path(prefix@.push(m).push(n).push(k)),
{
    let mut s = String::new();
    s.append("__zippel::soundness::d::");
    let ghost head = s@;
    push_path(&mut s, prefix);
    if prefix.len() > 0 {
        push_sep(&mut s);
    }
    push_decimal(&mut s, m);
    push_sep(&mut s);
    push_decimal(&mut s, n);
    push_sep(&mut s);
    push_decimal(&mut s, k);
    proof {
        lemma_path_push(prefix@, m);
        lemma_path_push(prefix@.push(m), n);
        lemma_path_push(prefix@.push(m).push(n), k);
        if prefix@.len() == 0 {
            assert(prefix@ =~= Seq::<usize>::empty());
        }
        assert(s@ =~= d_name_prefix() + path(prefix@.push(m).push(n).push(k)));
    }
    s
}

/// Why a special-soundness analysis refuses its parameters.
#[derive(Clone, Copy, PartialEq, Eq, Structural, Debug)]
pub enum SoundnessError {
    /// The list of challenge counts per round is empty or holds a count
    /// below two.
    InvalidParameter,
    /// The difference variables would exhaust the sentinel index range.
    TooManyVariables,
}

/// At least one round, and at least two challenges in every round.
pub open spec fn valid_l_vec(l: Seq<usize>) -> bool {
    &&& l.len() > 0
    &&& forall|i: int| 0 <= i < l.len() ==> #[trigger] l[i] >= 2
}

/// Check the number of distinct challenges asked for in each round.
pub fn check_l_vec(l_vec: &Vec<usize>) -> (r: Result<(), SoundnessError>)
    ensures
        r is Ok <==> valid_l_vec(l_vec@),
        r matches Err(e) ==> e == SoundnessError::InvalidParameter,
{
    if l_vec.len() == 0 {
        return Err(SoundnessError::InvalidParameter);
    }
    let mut i: usize = 0;
    while i < l_vec.len()
        invariant
            i <= l_vec@.len(),
            forall|j: int| 0 <= j < i ==> #[trigger] l_vec@[j] >= 2,
        decreases l_vec@.len() - i,
    {
        if l_vec[i] < 2 {
            return Err(SoundnessError::InvalidParameter);
        }
        i = i + 1;
    }
    Ok(())
}

/// The name of the difference variable for copy pair `(m, n)` and
/// challenge slot `k` under the copy prefix `prefix`.
pub open spec fn d_var_name(prefix: Seq<usize>, m: nat, n: nat, k: nat) -> Seq<char> {
    d_name_prefix() + path(prefix.push(m as usize).push(n as usize).push(k as usize))
}

/// `prod_{t < k} (d_t * (c_t - c'_t) - 1)`: vanishing exactly where some
/// challenge pair differs, `d_t` then being an inverse of the difference.
pub open spec fn dprod(cm: Seq<VarV>, cn: Seq<VarV>, ds: Seq<VarV>, env: Env, k: nat) -> int
    decreases k,
{
    if k == 0 {
        1
    } else {
        let t = (k - 1) as nat;
        dprod(cm, cn, ds, env, t) * (env(ds[t as int]) * (env(cm[t as int]) - env(cn[t as int])) - 1)
    }
}

/// `d` is the fresh scalar for slot `k` of copy pair `(m, n)`.
pub open spec fn is_d_var(d: VarV, prefix: Seq<usize>, m: nat, n: nat, k: nat) -> bool {
    &&& d.name == d_var_name(prefix, m, n, k)
    &&& d.typ == TypV::Base(ABase::Scalar)
    &&& d.qualifier == Qualifier::Local
    &&& d.index == Seq::<usize>::empty()
}

/// The d-equation of copies `m` and `n` with challenge variables `cm` and
/// `cn`: one fresh scalar `d_k` per challenge slot (introduced in `search`
/// and recorded in `validity`'s order too), and the product
/// `prod_k (d_k * (cm_k - cn_k) - 1)`, which vanishes only where the two
/// copies' challenges differ somewhere.
pub fn d_equation(
    builder: &mut IdealBuilder,
    search: &mut Ideal,
    validity: &mut Ideal,
    prefix: &Vec<usize>,
    m: usize,
    n: usize,
    cm: &Vec<Var>,
    cn: &Vec<Var>,
) -> (r: (Polynomial, Vec<Var>))
    requires
        old(builder).ns.wf(),
        cm@.len() == cn@.len(),
        cm@.len() <= old(builder).ns.next_sentinel(),
    ensures
        r.1@.len() == cm@.len(),
        forall|t: int| 0 <= t < r.1@.len() ==> #[trigger] is_d_var(r.1@[t]@, prefix@, m as nat, n as nat, t as nat),
        forall|t: int| 0 <= t < r.1@.len() ==> (#[trigger] r.1@[t]@).reference.0 == old(builder).ns.next_sentinel() - t,
        forall|env: Env| #[trigger] eval(r.0@, env)
            == dprod(views(cm@), views(cn@), views(r.1@), env, cm@.len() as nat) % (modulus() as int),
        final(builder).ns.wf(),
        final(builder).ns.next_sentinel() + cm@.len() == old(builder).ns.next_sentinel(),
        forall|key: Seq<char>| #[trigger] final(builder).ns.count(key) == old(builder).ns.count(key),
        final(builder).ns.witnesses() == old(builder).ns.witnesses(),
        final(builder).ns.inverses() == old(builder).ns.inverses(),
        final(search).generating_set == old(search).generating_set,
        final(search).pl == old(search).pl,
        final(search).vars == old(search).vars,
        views(final(search).var_order@) == views(old(search).var_order@) + views(r.1@),
        final(validity).generating_set == old(validity).generating_set,
        final(validity).pl == old(validity).pl,
        final(validity).vars == old(validity).vars,
        views(final(validity).var_order@) == views(old(validity).var_order@) + views(r.1@),
{
    let ghost s0 = builder.ns.next_sentinel();
    let ghost md = modulus() as int;
    let ghost cmv = views(cm@);
    let ghost cnv = views(cn@);
    let one = Polynomial::lit(&Fe::one());
    let mut product = Polynomial::lit(&Fe::one());
    let mut ds: Vec<Var> = Vec::new();
    let mut k: usize = 0;
    proof {
        assert forall|env: Env| #[trigger] eval(product@, env) == dprod(cmv, cnv, views(ds@), env, 0) % md by {
            vstd::arithmetic::div_mod::lemma_small_mod(1, modulus());
        }
        assert(views(search.var_order@) =~= views(old(search).var_order@) + views(ds@));
        assert(views(validity.var_order@) =~= views(old(validity).var_order@) + views(ds@));
    }
    while k < cm.len()
        invariant
            k <= cm@.len(),
            cm@.len() == cn@.len(),
            cm@.len() <= s0,
            cmv == views(cm@),
            cnv == views(cn@),
            md == modulus() as int,
            one@ == crate::polyv::lit(1),
            ds@.len() == k,
            forall|t: int| 0 <= t < k ==> #[trigger] is_d_var(ds@[t]@, prefix@, m as nat, n as nat, t as nat),
            forall|t: int| 0 <= t < k ==> (#[trigger] ds@[t]@).reference.0 == s0 - t,
            forall|env: Env| #[trigger] eval(product@, env) == dprod(cmv, cnv, views(ds@), env, k as nat) % md,
            builder.ns.wf(),
            builder.ns.next_sentinel() + k == s0,
            s0 == old(builder).ns.next_sentinel(),
            forall|key: Seq<char>| #[trigger] builder.ns.count(key) == old(builder).ns.count(key),
            builder.ns.witnesses() == old(builder).ns.witnesses(),
            builder.ns.inverses() == old(builder).ns.inverses(),
            search.generating_set == old(search).generating_set,
            search.pl == old(search).pl,
            search.vars == old(search).vars,
            views(search.var_order@) == views(old(search).var_order@) + views(ds@),
            validity.generating_set == old(validity).generating_set,
            validity.pl == old(validity).pl,
            validity.vars == old(validity).vars,
            views(validity.var_order@) == views(old(validity).var_order@) + views(ds@),
        decreases cm@.len() - k,
    {
        let name = format_d_name(prefix.as_slice(), m, n, k);
        let ghost so = search.var_order@;
        proof {
            builder.ns.lemma_next_sentinel_fits();
        }
        let ghost vo = validity.var_order@;
        let d = builder.sentinel_var(&name, ATyp::scalar(), search);
        validity.var_order.push(d.clone());
        let ghost dview = d@;
        proof {
            assert(search.var_order@ =~= so.push(search.var_order@.last()));
            assert(views(search.var_order@) =~= views(so).push(dview));
            assert(views(validity.var_order@) =~= views(vo).push(dview));
            assert(dview.reference.0 == s0 - k);
        }
        let factor = Polynomial::var(&d).mul(&Polynomial::var(&cm[k]).sub(&Polynomial::var(&cn[k]))).sub(&one);
        let next = product.mul(&factor);
        let ghost before = ds@;
        ds.push(d);
        proof {
            assert(views(ds@) =~= views(before).push(ds@[k as int]@));
            assert(views(ds@) =~= views(before).push(dview));
            assert(views(before) == views(ds@).take(k as int));
            assert(views(search.var_order@) =~= views(old(search).var_order@) + views(ds@));
            assert(views(validity.var_order@) =~= views(old(validity).var_order@) + views(ds@));
            assert(ds@[k as int]@.name == d_var_name(prefix@, m as nat, n as nat, k as nat));
            assert forall|env: Env| #[trigger] eval(next@, env) == dprod(cmv, cnv, views(ds@), env, (k + 1) as nat) % md by {
                let dv = env(ds@[k as int]@) as int;
                let a = env(cmv[k as int]) as int;
                let b = env(cnv[k as int]) as int;
                assert(cm@[k as int]@ == cmv[k as int]);
                assert(cn@[k as int]@ == cnv[k as int]);
                assert(views(ds@)[k as int] == ds@[k as int]@);
                lemma_mod_diff(a, b, md);
                vstd::arithmetic::div_mod::lemma_mul_mod_noop(dv, a - b, md);
                lemma_mod_diff(dv * (a - b), 1, md);
                vstd::arithmetic::div_mod::lemma_small_mod(1, modulus());
                let p0 = dprod(cmv, cnv, views(before), env, k as nat);
                assert(dprod(cmv, cnv, views(ds@), env, k as nat) == p0) by {
                    lemma_dprod_prefix(cmv, cnv, views(before), views(ds@), env, k as nat);
                }
                vstd::arithmetic::div_mod::lemma_mul_mod_noop(p0, dv * (a - b) - 1, md);
            }
        }
        product = next;
        k = k + 1;
    }
    (product, ds)
}

/// The product only reads the first `k` difference variables.
proof fn lemma_dprod_prefix(cm: Seq<VarV>, cn: Seq<VarV>, d1: Seq<VarV>, d2: Seq<VarV>, env: Env, k: nat)
    requires
        k <= d1.len(),
        k <= d2.len(),
        forall|t: int| 0 <= t < k ==> d1[t] == d2[t],
    ensures
        dprod(cm, cn, d1, env, k) == dprod(cm, cn, d2, env, k),
    decreases k,
{
    if k > 0 {
        lemma_dprod_prefix(cm, cn, d1, d2, env, (k - 1) as nat);
    }
}


/// `v` as named in one transcript copy: its name followed by `::` and the
/// copy's suffix.
pub open spec fn renamed(v: VarV, suffix: Seq<char>) -> VarV {
    VarV { reference: v.reference, index: v.index, typ: v.typ, qualifier: v.qualifier, name: v.name + sep() + suffix }
}

/// The challenge variables of copy `j` under `prefix`: those flagged as
/// belonging to the round being copied are renamed with the copy suffix
/// `prefix::j`, the others are shared by all copies.
pub open spec fn chal_copy(vs: Seq<VarV>, fresh: Seq<bool>, prefix: Seq<usize>, j: nat) -> Seq<VarV> {
    Seq::new(vs.len(), |i: int| if fresh[i] { renamed(vs[i], path(prefix.push(j as usize))) } else { vs[i] })
}

/// `ds` are the difference variables of copy pair `(m, n)` under `prefix`,
/// one per challenge slot.
pub open spec fn d_vars_of(ds: Seq<VarV>, prefix: Seq<usize>, m: nat, n: nat, k: nat) -> bool {
    &&& ds.len() == k
    &&& forall|t: int| 0 <= t < k ==> #[trigger] is_d_var(ds[t], prefix, m, n, t as nat)
}

/// `eq` is the d-equation of copies `m` and `n` (challenges `cm`, `cn`).
pub open spec fn is_d_equation(eq: PolyV, cm: Seq<VarV>, cn: Seq<VarV>, prefix: Seq<usize>, m: nat, n: nat) -> bool {
    exists|ds: Seq<VarV>| #[trigger] d_vars_of(ds, prefix, m, n, cm.len())
        && forall|env: Env| #[trigger] eval(eq, env) == dprod(cm, cn, ds, env, cm.len()) % (modulus() as int)
}

/// Some equation of `eqs` is the d-equation of copies `m` and `n`.
pub open spec fn covered(eqs: Seq<PolyV>, cm: Seq<VarV>, cn: Seq<VarV>, prefix: Seq<usize>, m: nat, n: nat) -> bool {
    exists|q: int| 0 <= q < eqs.len() && #[trigger] is_d_equation(eqs[q], cm, cn, prefix, m, n)
}

/// Every pair `m < n < l` of copies under `prefix` has its d-equation in
/// `eqs`.
pub open spec fn pairs_covered(eqs: Seq<PolyV>, ch: Seq<VarV>, fresh: Seq<bool>, prefix: Seq<usize>, l: nat) -> bool {
    forall|m: nat, n: nat| m < n < l ==> #[trigger] covered(
        eqs,
        chal_copy(ch, fresh, prefix, m),
        chal_copy(ch, fresh, prefix, n),
        prefix,
        m,
        n,
    )
}

/// `eq` is the d-equation of some pair `m < n < l` of copies under
/// `prefix`.
pub open spec fn pair_equation(eq: PolyV, ch: Seq<VarV>, fresh: Seq<bool>, prefix: Seq<usize>, l: nat) -> bool {
    exists|m: nat, n: nat| m < n < l && #[trigger] is_d_equation(
        eq,
        chal_copy(ch, fresh, prefix, m),
        chal_copy(ch, fresh, prefix, n),
        prefix,
        m,
        n,
    )
}

/// Coverage survives appending equations.
proof fn lemma_covered_grows(a: Seq<PolyV>, b: Seq<PolyV>, cm: Seq<VarV>, cn: Seq<VarV>, prefix: Seq<usize>, m: nat, n: nat)
    requires
        a.len() <= b.len(),
        forall|q: int| 0 <= q < a.len() ==> a[q] == b[q],
        covered(a, cm, cn, prefix, m, n),
    ensures
        covered(b, cm, cn, prefix, m, n),
{
    let q = choose|q: int| 0 <= q < a.len() && #[trigger] is_d_equation(a[q], cm, cn, prefix, m, n);
    assert(is_d_equation(b[q], cm, cn, prefix, m, n));
}

/// The challenge variables of one copy, named for it.
pub fn copy_challenges(ch: &Vec<Var>, fresh: &Vec<bool>, prefix: &Vec<usize>, j: usize) -> (r: Vec<Var>)
    requires
        fresh@.len() == ch@.len(),
    ensures
        views(r@) == chal_copy(views(ch@), fresh@, prefix@, j as nat),
{
    let suffix = format_suffix(prefix.as_slice(), j);
    let mut out: Vec<Var> = Vec::new();
    let mut i: usize = 0;
    while i < ch.len()
        invariant
            i <= ch@.len(),
            fresh@.len() == ch@.len(),
            suffix@ == path(prefix@.push(j)),
            out@.len() == i,
            forall|t: int| 0 <= t < i ==> #[trigger] out@[t]@ == chal_copy(views(ch@), fresh@, prefix@, j as nat)[t],
        decreases ch@.len() - i,
    {
        let mut w = ch[i].clone();
        if fresh[i] {
            let mut name = String::new();
            name.append(ch[i].name());
            push_sep(&mut name);
            name.append(suffix.as_str());
            w.name = name;
        }
        out.push(w);
        i = i + 1;
    }
    assert(views(out@) =~= chal_copy(views(ch@), fresh@, prefix@, j as nat));
    out
}


/// The number of pairs `(a, b)` with `a < m` and `a < b < l`.
pub open spec fn pcount(l: nat, m: nat) -> nat
    decreases m,
{
    if m == 0 {
        0
    } else {
        pcount(l, (m - 1) as nat) + (l - m) as nat
    }
}

/// The number of pairs `a < b < l`.
pub open spec fn pairs(l: nat) -> nat {
    pcount(l, l)
}

proof fn lemma_pcount_mono(l: nat, a: nat, b: nat)
    requires
        a <= b <= l,
    ensures
        pcount(l, a) <= pcount(l, b),
    decreases b - a,
{
    if a < b {
        lemma_pcount_mono(l, a, (b - 1) as nat);
    }
}

/// The d-equations of every pair of the `l` copies under `prefix`, appended
/// to `eqs`, their difference variables appended to `dvars` (and to the
/// introduction order of both ideals). `false` when the sentinel range runs
/// out first.
fn prefix_equations(
    builder: &mut IdealBuilder,
    search: &mut Ideal,
    validity: &mut Ideal,
    prefix: &Vec<usize>,
    ch: &Vec<Var>,
    fresh: &Vec<bool>,
    l: usize,
    eqs: &mut Vec<Polynomial>,
    dvars: &mut Vec<Var>,
) -> (ok: bool)
    requires
        old(builder).ns.wf(),
        fresh@.len() == ch@.len(),
        views(old(search).var_order@) == views(old(dvars)@),
        views(old(validity).var_order@) == views(old(dvars)@),
    ensures
        final(builder).ns.wf(),
        views(final(search).var_order@) == views(final(dvars)@),
        views(final(validity).var_order@) == views(final(dvars)@),
        final(search).generating_set == old(search).generating_set,
        final(validity).generating_set == old(validity).generating_set,
        final(eqs)@.len() >= old(eqs)@.len(),
        forall|q: int| 0 <= q < old(eqs)@.len() ==> #[trigger] final(eqs)@[q]@ == old(eqs)@[q]@,
        ok ==> pairs_covered(pviews(final(eqs)@), views(ch@), fresh@, prefix@, l as nat),
        forall|q: int| old(eqs)@.len() <= q < final(eqs)@.len() ==> #[trigger] pair_equation(final(eqs)@[q]@, views(ch@), fresh@, prefix@, l as nat),
        ok ==> final(builder).ns.next_sentinel() + pairs(l as nat) * ch@.len() == old(builder).ns.next_sentinel(),
        !ok ==> old(builder).ns.next_sentinel() < pairs(l as nat) * ch@.len(),
{
    let ghost s0 = builder.ns.next_sentinel();
    let ghost kk = ch@.len();
    let mut copies: Vec<Vec<Var>> = Vec::new();
    let mut j: usize = 0;
    while j < l
        invariant
            j <= l,
            fresh@.len() == ch@.len(),
            copies@.len() == j,
            forall|t: int| 0 <= t < j ==> views(#[trigger] copies@[t]@) == chal_copy(views(ch@), fresh@, prefix@, t as nat),
        decreases l - j,
    {
        copies.push(copy_challenges(ch, fresh, prefix, j));
        j = j + 1;
    }
    let ghost chv = views(ch@);
    let ghost e0 = old(eqs)@;
    proof {
        assert(pcount(l as nat, 0) == 0);
        assert(builder.ns.next_sentinel() == s0);
        assert(pcount(l as nat, 0) * kk == 0);
    }
    let mut m: usize = 0;
    while m < l
        invariant
            m <= l,
            copies@.len() == l,
            chv == views(ch@),
            fresh@.len() == ch@.len(),
            forall|t: int| 0 <= t < l ==> views(#[trigger] copies@[t]@) == chal_copy(chv, fresh@, prefix@, t as nat),
            builder.ns.wf(),
            views(search.var_order@) == views(dvars@),
            views(validity.var_order@) == views(dvars@),
            search.generating_set == old(search).generating_set,
            validity.generating_set == old(validity).generating_set,
            e0 == old(eqs)@,
            s0 == old(builder).ns.next_sentinel(),
            kk == ch@.len(),
            builder.ns.next_sentinel() + pcount(l as nat, m as nat) * kk == s0,
            eqs@.len() >= e0.len(),
            forall|q: int| 0 <= q < e0.len() ==> #[trigger] eqs@[q]@ == e0[q]@,
            forall|q: int| e0.len() <= q < eqs@.len() ==> #[trigger] pair_equation(eqs@[q]@, chv, fresh@, prefix@, l as nat),
            forall|a: nat, b: nat| a < m && a < b < l ==> #[trigger] covered(
                pviews(eqs@),
                chal_copy(chv, fresh@, prefix@, a),
                chal_copy(chv, fresh@, prefix@, b),
                prefix@,
                a,
                b,
            ),
        decreases l - m,
    {
        let mut n: usize = m + 1;
        while n < l
            invariant
                m < l,
                m + 1 <= n <= l,
                copies@.len() == l,
                chv == views(ch@),
                fresh@.len() == ch@.len(),
                forall|t: int| 0 <= t < l ==> views(#[trigger] copies@[t]@) == chal_copy(chv, fresh@, prefix@, t as nat),
                builder.ns.wf(),
                views(search.var_order@) == views(dvars@),
                views(validity.var_order@) == views(dvars@),
                search.generating_set == old(search).generating_set,
                validity.generating_set == old(validity).generating_set,
                e0 == old(eqs)@,
                s0 == old(builder).ns.next_sentinel(),
                kk == ch@.len(),
                builder.ns.next_sentinel() + (pcount(l as nat, m as nat) + (n - m - 1)) * kk == s0,
                eqs@.len() >= e0.len(),
                forall|q: int| 0 <= q < e0.len() ==> #[trigger] eqs@[q]@ == e0[q]@,
                forall|q: int| e0.len() <= q < eqs@.len() ==> #[trigger] pair_equation(eqs@[q]@, chv, fresh@, prefix@, l as nat),
                forall|a: nat, b: nat| ((a < m && a < b < l) || (a == m && m < b < n)) ==> #[trigger] covered(
                    pviews(eqs@),
                    chal_copy(chv, fresh@, prefix@, a),
                    chal_copy(chv, fresh@, prefix@, b),
                    prefix@,
                    a,
                    b,
                ),
            decreases l - n,
        {
            let cm = &copies[m];
            let cn = &copies[n];
            proof {
                assert(views(cm@) == chal_copy(chv, fresh@, prefix@, m as nat));
                assert(views(cn@) == chal_copy(chv, fresh@, prefix@, n as nat));
                assert(views(cm@).len() == views(cn@).len());
            }
            if cm.len() > builder.ns.sentinels_left() {
                proof {
                    let pc = pcount(l as nat, m as nat) + (n - m - 1);
                    lemma_pcount_mono(l as nat, (m + 1) as nat, l as nat);
                    assert(pc + 1 <= pcount(l as nat, l as nat));
                    assert(s0 < (pc + 1) * kk) by (nonlinear_arith)
                        requires
                            builder.ns.next_sentinel() + pc * kk == s0,
                            builder.ns.next_sentinel() < kk,
                    ;
                    assert((pc + 1) * kk <= pcount(l as nat, l as nat) * kk) by (nonlinear_arith)
                        requires
                            pc + 1 <= pcount(l as nat, l as nat),
                    ;
                }
                return false;
            }
            let ghost sb = builder.ns.next_sentinel();
            let (eq, ds) = d_equation(builder, search, validity, prefix, m, n, cm, cn);
            proof {
                let pc = pcount(l as nat, m as nat) + (n - m - 1);
                assert(builder.ns.next_sentinel() + (pc + 1) * kk == s0) by (nonlinear_arith)
                    requires
                        sb + pc * kk == s0,
                        builder.ns.next_sentinel() + kk == sb,
                ;
            }
            let ghost before = eqs@;
            eqs.push(eq);
            let ghost d0 = dvars@;
            let mut t: usize = 0;
            while t < ds.len()
                invariant
                    t <= ds@.len(),
                    views(dvars@) == views(d0) + views(ds@).take(t as int),
                decreases ds@.len() - t,
            {
                let ghost dv = dvars@;
                dvars.push(ds[t].clone());
                proof {
                    assert(views(dvars@) =~= views(dv).push(ds@[t as int]@));
                    assert(views(ds@).take(t + 1) =~= views(ds@).take(t as int).push(ds@[t as int]@));
                }
                t = t + 1;
            }
            proof {
                assert(views(ds@).take(ds@.len() as int) =~= views(ds@));
            }
            proof {
                let cmv = chal_copy(chv, fresh@, prefix@, m as nat);
                let cnv = chal_copy(chv, fresh@, prefix@, n as nat);
                let q = before.len() as int;
                assert(d_vars_of(views(ds@), prefix@, m as nat, n as nat, cmv.len())) by {
                    assert forall|t: int| 0 <= t < cmv.len() implies #[trigger] is_d_var(views(ds@)[t], prefix@, m as nat, n as nat, t as nat) by {
                        assert(views(ds@)[t] == ds@[t]@);
                    }
                }
                assert(pviews(eqs@)[q] == eq@);
                assert(is_d_equation(pviews(eqs@)[q], cmv, cnv, prefix@, m as nat, n as nat));
                assert(covered(pviews(eqs@), cmv, cnv, prefix@, m as nat, n as nat));
                assert(pair_equation(eqs@[q]@, chv, fresh@, prefix@, l as nat));
                assert forall|q2: int| e0.len() <= q2 < eqs@.len() implies #[trigger] pair_equation(eqs@[q2]@, chv, fresh@, prefix@, l as nat) by {
                    if q2 < q {
                        assert(eqs@[q2] == before[q2]);
                    }
                }
                assert forall|a: nat, b: nat| ((a < m && a < b < l) || (a == m && m < b < n + 1)) implies #[trigger] covered(
                    pviews(eqs@),
                    chal_copy(chv, fresh@, prefix@, a),
                    chal_copy(chv, fresh@, prefix@, b),
                    prefix@,
                    a,
                    b,
                ) by {
                    if !(a == m && b == n) {
                        lemma_covered_grows(
                            pviews(before),
                            pviews(eqs@),
                            chal_copy(chv, fresh@, prefix@, a),
                            chal_copy(chv, fresh@, prefix@, b),
                            prefix@,
                            a,
                            b,
                        );
                    }
                }
            }
            n = n + 1;
        }
        m = m + 1;
    }
    true
}


/// Coverage of every pair survives appending equations.
proof fn lemma_pairs_covered_grows(a: Seq<PolyV>, b: Seq<PolyV>, ch: Seq<VarV>, fresh: Seq<bool>, prefix: Seq<usize>, l: nat)
    requires
        a.len() <= b.len(),
        forall|q: int| 0 <= q < a.len() ==> a[q] == b[q],
        pairs_covered(a, ch, fresh, prefix, l),
    ensures
        pairs_covered(b, ch, fresh, prefix, l),
{
    assert forall|m: nat, n: nat| m < n < l implies #[trigger] covered(
        b,
        chal_copy(ch, fresh, prefix, m),
        chal_copy(ch, fresh, prefix, n),
        prefix,
        m,
        n,
    ) by {
        lemma_covered_grows(a, b, chal_copy(ch, fresh, prefix, m), chal_copy(ch, fresh, prefix, n), prefix, m, n);
    }
}


/// `p` picks, for each of the first `p.len()` rounds, one of that round's
/// copies.
pub open spec fn valid_prefix(l: Seq<usize>, p: Seq<usize>) -> bool {
    &&& p.len() <= l.len()
    &&& forall|i: int| 0 <= i < p.len() ==> #[trigger] p[i] < l[i]
}

/// Some entry of `s` holds `p`.
pub open spec fn listed(s: Seq<Vec<usize>>, p: Seq<usize>) -> bool {
    exists|k: int| 0 <= k < s.len() && #[trigger] s[k]@ == p
}

/// The challenge variables of each round, by view.
pub open spec fn round_views(c: Seq<Vec<Var>>) -> Seq<Seq<VarV>> {
    c.map_values(|v: Vec<Var>| views(v@))
}

/// The per-slot renaming flags of each round.
pub open spec fn flag_views(f: Seq<Vec<bool>>) -> Seq<Seq<bool>> {
    f.map_values(|v: Vec<bool>| v@)
}

/// For every round before `r` and every copy prefix reaching it, every pair
/// of that round's copies has its d-equation in `eqs`.
pub open spec fn rounds_covered(eqs: Seq<PolyV>, ch: Seq<Seq<VarV>>, fr: Seq<Seq<bool>>, l: Seq<usize>, r: nat) -> bool {
    forall|p: Seq<usize>| valid_prefix(l, p) && p.len() < r ==> #[trigger] pairs_covered(
        eqs,
        ch[p.len() as int],
        fr[p.len() as int],
        p,
        l[p.len() as int] as nat,
    )
}

/// `eq` is the d-equation of some pair of sibling copies under some copy
/// prefix.
pub open spec fn some_d_equation(eq: PolyV, ch: Seq<Seq<VarV>>, fr: Seq<Seq<bool>>, l: Seq<usize>) -> bool {
    exists|p: Seq<usize>| valid_prefix(l, p) && p.len() < l.len() && #[trigger] pair_equation(
        eq,
        ch[p.len() as int],
        fr[p.len() as int],
        p,
        l[p.len() as int] as nat,
    )
}

/// The number of challenge slots of each round.
pub open spec fn klens(c: Seq<Vec<Var>>) -> Seq<nat> {
    c.map_values(|v: Vec<Var>| v@.len())
}

/// The number of copy prefixes reaching round `r`.
pub open spec fn nprefix(l: Seq<usize>, r: nat) -> nat
    decreases r,
{
    if r == 0 {
        1
    } else {
        nprefix(l, (r - 1) as nat) * l[r - 1] as nat
    }
}

/// The number of difference variables of the rounds before `r`: for each
/// round, one per challenge slot, sibling pair and prefix.
pub open spec fn need_upto(l: Seq<usize>, ks: Seq<nat>, r: nat) -> nat
    decreases r,
{
    if r == 0 {
        0
    } else {
        let t = (r - 1) as nat;
        need_upto(l, ks, t) + nprefix(l, t) * pairs(l[t as int] as nat) * ks[t as int]
    }
}

proof fn lemma_need_mono(l: Seq<usize>, ks: Seq<nat>, a: nat, b: nat)
    requires
        a <= b,
    ensures
        need_upto(l, ks, a) <= need_upto(l, ks, b),
    decreases b - a,
{
    if a < b {
        lemma_need_mono(l, ks, a, (b - 1) as nat);
    }
}

/// What the special-soundness search starts from: the d-equations of all
/// copy pairs of all rounds, in both the search and the validity ideal, and
/// the difference variables in their introduction order.
pub struct SoundnessIdeals {
    /// The namespace the difference variables were drawn from.
    pub builder: IdealBuilder,
    /// Search ideal: the d-equations so far.
    pub search: Ideal,
    /// Validity ideal: the d-equations so far.
    pub validity: Ideal,
    /// The d-equations, round by round, prefix by prefix, pair by pair.
    pub equations: Vec<Polynomial>,
    /// The difference variables, in introduction order.
    pub d_vars: Vec<Var>,
}

/// The d-equations of a special-soundness analysis with `l_vec[r]` copies
/// in round `r`: the transcript is copied `l_vec[0]` times, each copy
/// `l_vec[1]` times again, and so on; in every round, each pair `m < n` of
/// sibling copies gets the equation `prod_k (d_k * (c_m,k - c_n,k) - 1)`
/// over the round's challenge slots, whose names the copies carry with the
/// copy suffix where `fresh` flags them.
pub fn soundness_ideals(
    challenges: &Vec<Vec<Var>>,
    fresh: &Vec<Vec<bool>>,
    l_vec: &Vec<usize>,
) -> (r: Result<SoundnessIdeals, SoundnessError>)
    requires
        challenges@.len() == l_vec@.len(),
        fresh@.len() == l_vec@.len(),
        forall|i: int| 0 <= i < l_vec@.len() ==> (#[trigger] fresh@[i])@.len() == challenges@[i]@.len(),
    ensures
        (r matches Err(SoundnessError::InvalidParameter)) <==> !valid_l_vec(l_vec@),
        (r matches Err(SoundnessError::TooManyVariables))
            <==> valid_l_vec(l_vec@) && need_upto(l_vec@, klens(challenges@), l_vec@.len()) > usize::MAX,
        r matches Ok(s) ==> {
            &&& rounds_covered(pviews(s.equations@), round_views(challenges@), flag_views(fresh@), l_vec@, l_vec@.len())
            &&& forall|q: int| 0 <= q < s.equations@.len() ==> #[trigger] some_d_equation(s.equations@[q]@, round_views(challenges@), flag_views(fresh@), l_vec@)
            &&& s.search.gens() == pviews(s.equations@)
            &&& s.validity.gens() == pviews(s.equations@)
            &&& views(s.search.var_order@) == views(s.d_vars@)
            &&& views(s.validity.var_order@) == views(s.d_vars@)
            &&& s.builder.ns.wf()
        },
{
    if check_l_vec(l_vec).is_err() {
        return Err(SoundnessError::InvalidParameter);
    }
    let ghost chv = round_views(challenges@);
    let ghost frv = flag_views(fresh@);
    let ghost l = l_vec@;
    let ghost ks = klens(challenges@);
    let mut builder = IdealBuilder::new();
    let mut search = Ideal::new();
    let mut validity = Ideal::new();
    let mut eqs: Vec<Polynomial> = Vec::new();
    let mut dvars: Vec<Var> = Vec::new();
    let mut worklist: Vec<Vec<usize>> = Vec::new();
    worklist.push(Vec::new());
    proof {
        assert(search.generating_set@.len() == search.gens().len());
        assert(validity.generating_set@.len() == validity.gens().len());
        assert(views(dvars@) =~= Seq::<VarV>::empty());
        assert forall|p: Seq<usize>| valid_prefix(l, p) && p.len() == 0 implies #[trigger] listed(worklist@, p) by {
            assert(worklist@[0]@ =~= p);
            assert(worklist@[0]@ == p);
        }
    }
    let mut r: usize = 0;
    while r < l_vec.len()
        invariant
            r <= l.len(),
            l == l_vec@,
            valid_l_vec(l),
            chv == round_views(challenges@),
            frv == flag_views(fresh@),
            challenges@.len() == l.len(),
            fresh@.len() == l.len(),
            forall|i: int| 0 <= i < l.len() ==> (#[trigger] fresh@[i])@.len() == challenges@[i]@.len(),
            forall|p: Seq<usize>| valid_prefix(l, p) && p.len() == r ==> #[trigger] listed(worklist@, p),
            rounds_covered(pviews(eqs@), chv, frv, l, r as nat),
            forall|q: int| 0 <= q < eqs@.len() ==> #[trigger] some_d_equation(eqs@[q]@, chv, frv, l),
            forall|k: int| 0 <= k < worklist@.len() ==> valid_prefix(l, #[trigger] worklist@[k]@) && worklist@[k]@.len() == r,
            ks == klens(challenges@),
            worklist@.len() == nprefix(l, r as nat),
            builder.ns.next_sentinel() + need_upto(l, ks, r as nat) == usize::MAX,
            builder.ns.wf(),
            views(search.var_order@) == views(dvars@),
            views(validity.var_order@) == views(dvars@),
            search.generating_set@.len() == 0,
            validity.generating_set@.len() == 0,
        decreases l.len() - r,
    {
        let li = l_vec[r];
        let mut next: Vec<Vec<usize>> = Vec::new();
        let mut i: usize = 0;
        while i < worklist.len()
            invariant
                i <= worklist@.len(),
                r < l.len(),
                valid_l_vec(l),
                li == l[r as int],
                l == l_vec@,
                chv == round_views(challenges@),
                frv == flag_views(fresh@),
                challenges@.len() == l.len(),
                fresh@.len() == l.len(),
                forall|k: int| 0 <= k < l.len() ==> (#[trigger] fresh@[k])@.len() == challenges@[k]@.len(),
                forall|a: int, j: int| 0 <= a < i && 0 <= j < li ==> #[trigger] listed(next@, worklist@[a]@.push(j as usize)),
                forall|a: int| 0 <= a < i ==> #[trigger] pairs_covered(pviews(eqs@), chv[r as int], frv[r as int], worklist@[a]@, li as nat),
                rounds_covered(pviews(eqs@), chv, frv, l, r as nat),
                forall|q: int| 0 <= q < eqs@.len() ==> #[trigger] some_d_equation(eqs@[q]@, chv, frv, l),
                forall|k: int| 0 <= k < worklist@.len() ==> valid_prefix(l, #[trigger] worklist@[k]@) && worklist@[k]@.len() == r,
                forall|k: int| 0 <= k < next@.len() ==> valid_prefix(l, #[trigger] next@[k]@) && next@[k]@.len() == r + 1,
                ks == klens(challenges@),
                worklist@.len() == nprefix(l, r as nat),
                next@.len() == i * li,
                builder.ns.next_sentinel() + need_upto(l, ks, r as nat) + i * pairs(li as nat) * ks[r as int] == usize::MAX,
                builder.ns.wf(),
                views(search.var_order@) == views(dvars@),
                views(validity.var_order@) == views(dvars@),
                search.generating_set@.len() == 0,
                validity.generating_set@.len() == 0,
            decreases worklist@.len() - i,
        {
            let ghost before = pviews(eqs@);
            let ghost eqs_before = eqs@;
            let ghost sb = builder.ns.next_sentinel();
            proof {
                assert(ks[r as int] == challenges@[r as int]@.len());
                assert(fresh@[r as int]@.len() == challenges@[r as int]@.len());
            }
            let ok = prefix_equations(
                &mut builder,
                &mut search,
                &mut validity,
                &worklist[i],
                &challenges[r],
                &fresh[r],
                li,
                &mut eqs,
                &mut dvars,
            );
            if !ok {
                proof {
                    let pk = pairs(li as nat) * ks[r as int];
                    let nu = need_upto(l, ks, r as nat);
                    assert(sb < pk);
                    assert(nu + i * pk + pk <= nu + nprefix(l, r as nat) * pk) by (nonlinear_arith)
                        requires
                            i + 1 <= nprefix(l, r as nat),
                    ;
                    assert(i * pairs(li as nat) * ks[r as int] == i * pk) by (nonlinear_arith)
                        requires
                            pk == pairs(li as nat) * ks[r as int],
                    ;
                    assert(nprefix(l, r as nat) * pairs(li as nat) * ks[r as int] == nprefix(l, r as nat) * pk) by (nonlinear_arith)
                        requires
                            pk == pairs(li as nat) * ks[r as int],
                    ;
                    assert(need_upto(l, ks, (r + 1) as nat) == nu + nprefix(l, r as nat) * pairs(li as nat) * ks[r as int]);
                    lemma_need_mono(l, ks, (r + 1) as nat, l.len());
                }
                return Err(SoundnessError::TooManyVariables);
            }
            proof {
                let pk = pairs(li as nat) * ks[r as int];
                assert(builder.ns.next_sentinel() + pk == sb);
                assert(i * pairs(li as nat) * ks[r as int] + pk == (i + 1) * pairs(li as nat) * ks[r as int]) by (nonlinear_arith)
                    requires
                        pk == pairs(li as nat) * ks[r as int],
                ;
                let after = pviews(eqs@);
                assert(chv[r as int] == views(challenges@[r as int]@));
                assert(frv[r as int] == fresh@[r as int]@);
                assert forall|q: int| 0 <= q < eqs@.len() implies #[trigger] some_d_equation(eqs@[q]@, chv, frv, l) by {
                    if q < eqs_before.len() {
                        assert(eqs@[q]@ == eqs_before[q]@);
                    } else {
                        let p = worklist@[i as int]@;
                        assert(pair_equation(eqs@[q]@, chv[p.len() as int], frv[p.len() as int], p, l[p.len() as int] as nat));
                    }
                }
                assert forall|a: int| 0 <= a < i + 1 implies #[trigger] pairs_covered(after, chv[r as int], frv[r as int], worklist@[a]@, li as nat) by {
                    if a < i {
                        lemma_pairs_covered_grows(before, after, chv[r as int], frv[r as int], worklist@[a]@, li as nat);
                    }
                }
                assert forall|p: Seq<usize>| valid_prefix(l, p) && p.len() < r implies #[trigger] pairs_covered(
                    after,
                    chv[p.len() as int],
                    frv[p.len() as int],
                    p,
                    l[p.len() as int] as nat,
                ) by {
                    lemma_pairs_covered_grows(before, after, chv[p.len() as int], frv[p.len() as int], p, l[p.len() as int] as nat);
                }
            }
            let ghost n0 = next@;
            let mut j: usize = 0;
            while j < li
                invariant
                    j <= li,
                    i < worklist@.len(),
                    next@.len() == n0.len() + j,
                    forall|k: int| 0 <= k < n0.len() ==> #[trigger] next@[k] == n0[k],
                    forall|jj: int| 0 <= jj < j ==> #[trigger] listed(next@, worklist@[i as int]@.push(jj as usize)),
                    li == l[r as int],
                    r < l.len(),
                    valid_prefix(l, worklist@[i as int]@) && worklist@[i as int]@.len() == r,
                    forall|k: int| 0 <= k < next@.len() ==> valid_prefix(l, #[trigger] next@[k]@) && next@[k]@.len() == r + 1,
                decreases li - j,
            {
                let mut p = copy_index(&worklist[i]);
                p.push(j);
                let ghost nb = next@;
                next.push(p);
                proof {
                    assert forall|k: int| 0 <= k < next@.len() implies valid_prefix(l, #[trigger] next@[k]@) && next@[k]@.len() == r + 1 by {
                        if k < nb.len() {
                            assert(next@[k] == nb[k]);
                        } else {
                            assert(next@[k]@ == worklist@[i as int]@.push(j));
                        }
                    }
                    assert forall|jj: int| 0 <= jj < j + 1 implies #[trigger] listed(next@, worklist@[i as int]@.push(jj as usize)) by {
                        if jj < j {
                            assert(listed(nb, worklist@[i as int]@.push(jj as usize)));
                            let k = choose|k: int| 0 <= k < nb.len() && #[trigger] nb[k]@ == worklist@[i as int]@.push(jj as usize);
                            assert(next@[k] == nb[k]);
                        } else {
                            assert(next@[nb.len() as int]@ == worklist@[i as int]@.push(jj as usize));
                        }
                    }
                }
                j = j + 1;
            }
            proof {
                assert((i + 1) * li == i * li + li) by (nonlinear_arith);
            }
            proof {
                assert forall|a: int, jj: int| 0 <= a < i + 1 && 0 <= jj < li implies #[trigger] listed(next@, worklist@[a]@.push(jj as usize)) by {
                    if a < i {
                        assert(listed(n0, worklist@[a]@.push(jj as usize)));
                        let k = choose|k: int| 0 <= k < n0.len() && #[trigger] n0[k]@ == worklist@[a]@.push(jj as usize);
                        assert(next@[k] == n0[k]);
                    } else {
                        assert(listed(next@, worklist@[i as int]@.push(jj as usize)));
                        let k = choose|k: int| 0 <= k < next@.len() && #[trigger] next@[k]@ == worklist@[i as int]@.push(jj as usize);
                        assert(next@[k]@ == worklist@[a]@.push(jj as usize));
                    }
                }
            }
            i = i + 1;
        }
        proof {
            let e = pviews(eqs@);
            assert forall|p: Seq<usize>| valid_prefix(l, p) && p.len() < r + 1 implies #[trigger] pairs_covered(
                e,
                chv[p.len() as int],
                frv[p.len() as int],
                p,
                l[p.len() as int] as nat,
            ) by {
                if p.len() == r {
                    assert(listed(worklist@, p));
                    let a = choose|a: int| 0 <= a < worklist@.len() && #[trigger] worklist@[a]@ == p;
                    assert(pairs_covered(e, chv[r as int], frv[r as int], worklist@[a]@, li as nat));
                }
            }
            assert forall|p: Seq<usize>| valid_prefix(l, p) && p.len() == r + 1 implies #[trigger] listed(next@, p) by {
                let q = p.drop_last();
                assert(valid_prefix(l, q));
                assert(listed(worklist@, q));
                let a = choose|a: int| 0 <= a < worklist@.len() && #[trigger] worklist@[a]@ == q;
                let jj = p.last() as int;
                assert(0 <= jj < li);
                assert(q.push(jj as usize) =~= p);
                assert(listed(next@, worklist@[a]@.push(jj as usize)));
            }
        }
        proof {
            assert(next@.len() == nprefix(l, r as nat) * li) by (nonlinear_arith)
                requires
                    next@.len() == i * li,
                    i == nprefix(l, r as nat),
            ;
            assert(need_upto(l, ks, (r + 1) as nat) == need_upto(l, ks, r as nat) + nprefix(l, r as nat) * pairs(li as nat) * ks[r as int]);
        }
        worklist = next;
        r = r + 1;
    }
    let mut q: usize = 0;
    while q < eqs.len()
        invariant
            q <= eqs@.len(),
            l == l_vec@,
            chv == round_views(challenges@),
            frv == flag_views(fresh@),
            rounds_covered(pviews(eqs@), chv, frv, l, l.len()),
            forall|t: int| 0 <= t < eqs@.len() ==> #[trigger] some_d_equation(eqs@[t]@, chv, frv, l),
            ks == klens(challenges@),
            builder.ns.next_sentinel() + need_upto(l, ks, l.len()) == usize::MAX,
            builder.ns.wf(),
            views(search.var_order@) == views(dvars@),
            views(validity.var_order@) == views(dvars@),
            search.generating_set@.len() == q,
            validity.generating_set@.len() == q,
            forall|t: int| 0 <= t < q ==> #[trigger] search.generating_set@[t]@ == eqs@[t]@,
            forall|t: int| 0 <= t < q ==> #[trigger] validity.generating_set@[t]@ == eqs@[t]@,
        decreases eqs@.len() - q,
    {
        search.generating_set.push(eqs[q].clone());
        validity.generating_set.push(eqs[q].clone());
        q = q + 1;
    }
    proof {
        assert(search.gens() =~= pviews(eqs@));
        assert(validity.gens() =~= pviews(eqs@));
    }
    Ok(SoundnessIdeals { builder, search, validity, equations: eqs, d_vars: dvars })
}

} // verus!

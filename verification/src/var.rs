//! [`Var`]: a scalar slot (or whole value) of a graph node, the variable every
//! analysis polynomial ranges over.
use vstd::prelude::*;
use vstd::arithmetic::power2::*;

use crate::combinatorics::{binom, binomial};
use crate::text::{dec, push_decimal};
use crate::typ::{fields_view, lemma_fields_view, plen, plen_fields, pow2_usize, ABase, ATyp, TypV};

verus! {

/// A reference to a graph node by its index.
#[derive(Clone, Copy, PartialEq, Eq, Structural, Debug)]
pub struct Ref(pub usize);

impl Ref {
    /// The index of the referenced node.
    pub fn node(&self) -> (r: usize)
        ensures
            r == self.0,
    {
        self.0
    }
}

/// Who may see a value: prover-private witness data, verifier-visible
/// instance data, prover-internal locals, and the remaining classes of the
/// surface language.
#[derive(Clone, Copy, PartialEq, Eq, Structural, Debug)]
pub enum Qualifier {
    Witness,
    Instance,
    Local,
    Extra,
    Private,
    Public,
}

impl Qualifier {
    pub open spec fn witness(self) -> bool {
        self is Witness || self is Private
    }

    pub open spec fn instance(self) -> bool {
        self is Instance || self is Public
    }

    pub fn is_witness(&self) -> (r: bool)
        ensures
            r == self.witness(),
    {
        matches!(self, Qualifier::Witness | Qualifier::Private)
    }

    pub fn is_instance(&self) -> (r: bool)
        ensures
            r == self.instance(),
    {
        matches!(self, Qualifier::Instance | Qualifier::Public)
    }

    pub fn is_local(&self) -> (r: bool)
        ensures
            r == (*self is Local),
    {
        matches!(self, Qualifier::Local)
    }
}

/// A node reference together with the logical path to one of its slots.
#[derive(Debug)]
pub struct Var {
    /// The graph node this `Var` reads from.
    pub reference: Ref,
    /// Logical path from `reference` down to this slot; empty for the whole value.
    pub index: Vec<usize>,
    /// Type of the value at `index`.
    pub typ: ATyp,
    /// Qualifier of the referenced node.
    pub qualifier: Qualifier,
    /// Source-level variable name.
    pub name: String,
}

/// The mathematical content of a [`Var`].
pub struct VarV {
    pub reference: Ref,
    pub index: Seq<usize>,
    pub typ: TypV,
    pub qualifier: Qualifier,
    pub name: Seq<char>,
}

impl Var {
    pub open spec fn view(&self) -> VarV {
        VarV {
            reference: self.reference,
            index: self.index@,
            typ: self.typ@,
            qualifier: self.qualifier,
            name: self.name@,
        }
    }
}

/// The shape of logical slot `i` of a value of shape `t`, if it exists.
pub open spec fn slot_typ(t: TypV, i: nat) -> Option<TypV> {
    match t {
        TypV::Base(_) => None,
        TypV::Vec(e, n) => if i < n { Some(*e) } else { None },
        TypV::Uni(m) => if i <= m { Some(TypV::Base(ABase::Scalar)) } else { None },
        TypV::Mle(n) => if i < pow2(n) { Some(TypV::Base(ABase::Scalar)) } else { None },
        TypV::VPoly(n, m) => if i < binom(n + m, n) { Some(TypV::Base(ABase::Scalar)) } else { None },
        TypV::Record(fs) => if i < fs.len() { Some(fs[i as int].1) } else { None },
    }
}

/// Slot counts of `t` itself fit in a machine word.
pub open spec fn index_ok(t: TypV) -> bool {
    match t {
        TypV::Uni(m) => m <= usize::MAX,
        TypV::Mle(n) => pow2(n) <= usize::MAX,
        TypV::VPoly(n, m) => n + m <= usize::MAX && binom(n + m, n) <= usize::MAX,
        _ => true,
    }
}

/// Slot counts and lengths of `t` and of every shape nested in it fit in a
/// machine word.
pub open spec fn slots_ok(t: TypV) -> bool
    decreases t,
{
    match t {
        TypV::Vec(e, n) => n <= usize::MAX && slots_ok(*e),
        TypV::Record(fs) => fs.len() <= usize::MAX && fields_ok(fs, fs.len()),
        _ => index_ok(t),
    }
}

/// The first `k` fields satisfy [`slots_ok`].
pub open spec fn fields_ok(fs: Seq<(Seq<char>, TypV)>, k: nat) -> bool
    decreases fs, k,
{
    if k == 0 || k > fs.len() {
        true
    } else {
        fields_ok(fs, (k - 1) as nat) && slots_ok(fs[k - 1].1)
    }
}

proof fn lemma_fields_ok(fs: Seq<(Seq<char>, TypV)>, k: nat, j: int)
    requires
        fields_ok(fs, k),
        k <= fs.len(),
        0 <= j < k,
    ensures
        slots_ok(fs[j].1),
    decreases k,
{
    if j < k - 1 {
        lemma_fields_ok(fs, (k - 1) as nat, j);
    }
}

/// Logical slots of a shape whose slot counts fit have slot counts that fit.
pub proof fn lemma_slots_ok_child(t: TypV, i: nat)
    requires
        slots_ok(t),
        slot_typ(t, i) is Some,
    ensures
        slots_ok(slot_typ(t, i)->0),
{
    if let TypV::Record(fs) = t {
        lemma_fields_ok(fs, fs.len(), i as int);
    }
}

/// The var at logical slot `i` of `v`, with shape `t`.
pub open spec fn child(v: VarV, i: nat, t: TypV) -> VarV {
    VarV { index: v.index.push(i as usize), typ: t, ..v }
}

/// All physical slots of `v`, one per flattened scalar position.
pub open spec fn slot_list(v: VarV) -> Seq<VarV>
    decreases v.typ, 0nat,
{
    match v.typ {
        TypV::Base(ABase::Unit) => Seq::empty(),
        TypV::Base(_) => seq![v],
        TypV::Uni(m) => Seq::new(m + 1, |i: int| child(v, i as nat, TypV::Base(ABase::Scalar))),
        TypV::Mle(n) => Seq::new(pow2(n), |i: int| child(v, i as nat, TypV::Base(ABase::Scalar))),
        TypV::VPoly(n, m) => Seq::new(
            binom(n + m, n),
            |i: int| child(v, i as nat, TypV::Base(ABase::Scalar)),
        ),
        TypV::Vec(e, n) => vec_slots(v, *e, n),
        TypV::Record(fs) => rec_slots(v, fs, fs.len()),
    }
}

/// Slots of the first `n` elements of a vector var `v` with element shape `e`.
pub open spec fn vec_slots(v: VarV, e: TypV, n: nat) -> Seq<VarV>
    decreases e, n,
{
    if n == 0 {
        Seq::empty()
    } else {
        vec_slots(v, e, (n - 1) as nat) + slot_list(child(v, (n - 1) as nat, e))
    }
}

/// Slots of the first `k` fields of a record var `v`.
pub open spec fn rec_slots(v: VarV, fs: Seq<(Seq<char>, TypV)>, k: nat) -> Seq<VarV>
    decreases fs, k,
{
    if k == 0 || k > fs.len() {
        Seq::empty()
    } else {
        rec_slots(v, fs, (k - 1) as nat) + slot_list(child(v, (k - 1) as nat, fs[k - 1].1))
    }
}

/// The literal `__zippel::node::`.
pub open spec fn node_prefix() -> Seq<char> {
    "__zippel::node::"@
}

impl Clone for Var {
    fn clone(&self) -> (r: Self)
        ensures
            r@ == self@,
    {
        let index = copy_index(&self.index);
        Var {
            reference: self.reference,
            index,
            typ: self.typ.clone(),
            qualifier: self.qualifier,
            name: self.name.clone(),
        }
    }
}

pub(crate) fn copy_index(v: &Vec<usize>) -> (r: Vec<usize>)
    ensures
        r@ == v@,
{
    let mut r: Vec<usize> = Vec::new();
    let mut i: usize = 0;
    while i < v.len()
        invariant
            i <= v@.len(),
            r@ == v@.subrange(0, i as int),
        decreases v@.len() - i,
    {
        r.push(v[i]);
        i = i + 1;
        assert(r@ =~= v@.subrange(0, i as int));
    }
    assert(v@.subrange(0, v@.len() as int) =~= v@);
    r
}

impl Var {
    /// A whole-value var (empty path) with an explicit source name.
    pub fn new_named(reference: Ref, name: String, typ: ATyp, qualifier: Qualifier) -> (r: Var)
        ensures
            r@ == (VarV { reference, index: Seq::empty(), typ: typ@, qualifier, name: name@ }),
    {
        Var { reference, index: Vec::new(), typ, qualifier, name }
    }

    /// A whole-value var for `node`, named `__zippel::node::<node>`.
    pub fn from_node(node: usize, typ: ATyp, qualifier: Qualifier) -> (r: Var)
        ensures
            r@ == (VarV {
                reference: Ref(node),
                index: Seq::empty(),
                typ: typ@,
                qualifier,
                name: node_prefix() + dec(node as nat),
            }),
    {
        let mut name = String::new();
        name.append("__zippel::node::");
        push_decimal(&mut name, node);
        assert(name@ =~= node_prefix() + dec(node as nat));
        Var { reference: Ref(node), index: Vec::new(), typ, qualifier, name }
    }

    /// A whole-value var for the argument node `node`, carrying the name `v`.
    pub fn from_var(v: String, node: usize, typ: ATyp, qualifier: Qualifier) -> (r: Var)
        ensures
            r@ == (VarV { reference: Ref(node), index: Seq::empty(), typ: typ@, qualifier, name: v@ }),
    {
        Var { reference: Ref(node), index: Vec::new(), typ, qualifier, name: v }
    }

    pub fn is_witness(&self) -> (r: bool)
        ensures
            r == self.qualifier.witness(),
    {
        self.qualifier.is_witness()
    }

    pub fn is_instance(&self) -> (r: bool)
        ensures
            r == self.qualifier.instance(),
    {
        self.qualifier.is_instance()
    }

    pub fn is_local(&self) -> (r: bool)
        ensures
            r == (self.qualifier is Local),
    {
        self.qualifier.is_local()
    }

    /// The index of the node this var refers to.
    pub fn node(&self) -> (r: usize)
        ensures
            r == self.reference.0,
    {
        self.reference.node()
    }

    /// The source-level name.
    pub fn name(&self) -> (r: &str)
        ensures
            r@ == self.name@,
    {
        self.name.as_str()
    }

    /// Structural equality of vars.
    pub fn same(&self, other: &Var) -> (r: bool)
        ensures
            r == (self@ == other@),
    {
        if self.reference != other.reference || self.qualifier != other.qualifier {
            return false;
        }
        if self.index.len() != other.index.len() {
            assert(self@.index.len() != other@.index.len());
            return false;
        }
        let mut i: usize = 0;
        while i < self.index.len()
            invariant
                self.index@.len() == other.index@.len(),
                i <= self.index@.len(),
                forall|j: int| 0 <= j < i ==> self.index@[j] == other.index@[j],
            decreases self.index@.len() - i,
        {
            if self.index[i] != other.index[i] {
                assert(self@.index[i as int] != other@.index[i as int]);
                return false;
            }
            i = i + 1;
        }
        assert(self.index@ =~= other.index@);
        if self.name != other.name {
            return false;
        }
        self.typ.same(&other.typ)
    }

    /// The var at logical slot `i`: element `i` of a vector, coefficient or
    /// evaluation `i` of a polynomial (a scalar), field `i` of a record.
    /// `None` for a value of base type, which is not indexable, and for
    /// out-of-range positions.
    pub fn with_index(&self, i: usize) -> (r: Option<Var>)
        requires
            index_ok(self.typ@),
        ensures
            r is Some <==> slot_typ(self.typ@, i as nat) is Some,
            r matches Some(c) ==> c@ == child(self@, i as nat, slot_typ(self.typ@, i as nat)->0),
    {
        let slot = match &self.typ {
            ATyp::Base(_) => {
                return None;
            },
            ATyp::Vec(t, n) => {
                if i >= *n {
                    return None;
                }
                let inner: &ATyp = t;
                inner.clone()
            },
            ATyp::Uni(m) => {
                if i > *m {
                    return None;
                }
                ATyp::scalar()
            },
            ATyp::Mle(n) => {
                let len = pow2_usize(*n);
                if i >= len {
                    return None;
                }
                ATyp::scalar()
            },
            ATyp::VPoly(n, m) => {
                let count = binomial(*m + *n, *n);
                if i >= count {
                    return None;
                }
                ATyp::scalar()
            },
            ATyp::Record(fs) => {
                proof {
                    lemma_fields_view(fs@);
                }
                if i >= fs.len() {
                    return None;
                }
                fs[i].typ.clone()
            },
        };
        let mut index = copy_index(&self.index);
        index.push(i);
        let r = Var {
            reference: self.reference,
            index,
            typ: slot,
            qualifier: self.qualifier,
            name: self.name.clone(),
        };
        assert(r@ =~= child(self@, i as nat, slot_typ(self.typ@, i as nat)->0));
        Some(r)
    }
}

/// The views of a sequence of vars.
pub open spec fn views(s: Seq<Var>) -> Seq<VarV> {
    s.map_values(|v: Var| v@)
}

proof fn lemma_views_append(a: Seq<Var>, b: Seq<Var>)
    ensures
        views(a + b) == views(a) + views(b),
{
    assert(views(a + b) =~= views(a) + views(b));
}

proof fn lemma_views_push(a: Seq<Var>, v: Var)
    ensures
        views(a.push(v)) == views(a).push(v@),
{
    assert(views(a.push(v)) =~= views(a).push(v@));
}

impl Var {
    /// All physical slot vars of this value, one per flattened scalar
    /// position: none for `Unit`, the var itself for other base types, one
    /// scalar var per coefficient / evaluation for polynomial types, and the
    /// slots of each element or field in order for vectors and records.
    pub fn slots(&self) -> (r: Vec<Var>)
        requires
            slots_ok(self.typ@),
        ensures
            views(r@) == slot_list(self@),
        decreases self.typ@,
    {
        let mut out: Vec<Var> = Vec::new();
        match &self.typ {
            ATyp::Base(ABase::Unit) => {
                assert(views(out@) =~= slot_list(self@));
            },
            ATyp::Base(_) => {
                out.push(self.clone());
                assert(views(out@) =~= slot_list(self@));
            },
            ATyp::Uni(m) => {
                let mut i: usize = 0;
                loop
                    invariant_except_break
                        i <= *m,
                        self.typ@ == TypV::Uni(*m as nat),
                        views(out@) =~= Seq::new(i as nat, |j: int| child(self@, j as nat, TypV::Base(ABase::Scalar))),
                    ensures
                        views(out@) =~= Seq::new(*m as nat + 1, |j: int| child(self@, j as nat, TypV::Base(ABase::Scalar))),
                    decreases *m - i,
                {
                    let c = self.with_index(i).unwrap();
                    proof {
                        lemma_views_push(out@, c);
                    }
                    out.push(c);
                    if i == *m {
                        break;
                    }
                    i = i + 1;
                }
            },
            ATyp::Mle(n) => {
                let len = pow2_usize(*n);
                let mut i: usize = 0;
                while i < len
                    invariant
                        i <= len,
                        len == pow2(*n as nat),
                        self.typ@ == TypV::Mle(*n as nat),
                        index_ok(self.typ@),
                        views(out@) =~= Seq::new(i as nat, |j: int| child(self@, j as nat, TypV::Base(ABase::Scalar))),
                    decreases len - i,
                {
                    let c = self.with_index(i).unwrap();
                    proof {
                        lemma_views_push(out@, c);
                    }
                    out.push(c);
                    i = i + 1;
                }
            },
            ATyp::VPoly(n, m) => {
                let count = binomial(*m + *n, *n);
                let mut i: usize = 0;
                while i < count
                    invariant
                        i <= count,
                        count == binom((*n + *m) as nat, *n as nat),
                        self.typ@ == TypV::VPoly(*n as nat, *m as nat),
                        index_ok(self.typ@),
                        views(out@) =~= Seq::new(i as nat, |j: int| child(self@, j as nat, TypV::Base(ABase::Scalar))),
                    decreases count - i,
                {
                    let c = self.with_index(i).unwrap();
                    proof {
                        lemma_views_push(out@, c);
                    }
                    out.push(c);
                    i = i + 1;
                }
            },
            ATyp::Vec(t, n) => {
                let inner: &ATyp = t;
                let mut i: usize = 0;
                assert(views(out@) =~= vec_slots(self@, inner@, 0));
                while i < *n
                    invariant
                        i <= *n,
                        self.typ@ == TypV::Vec(Box::new(inner@), *n as nat),
                        slots_ok(inner@),
                        views(out@) == vec_slots(self@, inner@, i as nat),
                    decreases *n - i,
                {
                    let mut index = copy_index(&self.index);
                    index.push(i);
                    let elem = Var {
                        reference: self.reference,
                        index,
                        typ: inner.clone(),
                        qualifier: self.qualifier,
                        name: self.name.clone(),
                    };
                    assert(elem@ =~= child(self@, i as nat, inner@));
                    proof {
                        let tv = TypV::Vec(Box::new(inner@), *n as nat);
                        assert(tv->Vec_0 == inner@);
                        assert(decreases_to!(tv => tv->Vec_0));
                    }
                    let mut sub = elem.slots();
                    proof {
                        lemma_views_append(out@, sub@);
                    }
                    out.append(&mut sub);
                    i = i + 1;
                }
            },
            ATyp::Record(fs) => {
                proof {
                    lemma_fields_view(fs@);
                }
                let ghost fv = fields_view(fs@);
                let mut i: usize = 0;
                assert(views(out@) =~= rec_slots(self@, fv, 0));
                while i < fs.len()
                    invariant
                        i <= fs@.len(),
                        fv == fields_view(fs@),
                        fv.len() == fs@.len(),
                        forall|j: int| 0 <= j < fs@.len() ==> #[trigger] fv[j] == (fs@[j].name@, fs@[j].typ@),
                        self.typ@ == TypV::Record(fv),
                        fields_ok(fv, fv.len()),
                        views(out@) == rec_slots(self@, fv, i as nat),
                    decreases fs@.len() - i,
                {
                    proof {
                        lemma_fields_ok(fv, fv.len(), i as int);
                    }
                    let mut index = copy_index(&self.index);
                    index.push(i);
                    let elem = Var {
                        reference: self.reference,
                        index,
                        typ: fs[i].typ.clone(),
                        qualifier: self.qualifier,
                        name: self.name.clone(),
                    };
                    assert(elem@ =~= child(self@, i as nat, fv[i as int].1));
                    proof {
                        let tv = TypV::Record(fv);
                        assert(tv->Record_0 == fv);
                        assert(decreases_to!(tv => tv->Record_0));
                        assert(decreases_to!(fv => fv[i as int]));
                        assert(decreases_to!(fv[i as int] => fv[i as int].1));
                        assert(decreases_to!(tv => fv[i as int].1));
                    }
                    let mut sub = elem.slots();
                    proof {
                        lemma_views_append(out@, sub@);
                    }
                    out.append(&mut sub);
                    i = i + 1;
                }
            },
        }
        out
    }
}


/// `w` is `v` or lies below it: same node and type-independent fields, with
/// `v`'s index path as a prefix of `w`'s.
pub open spec fn extends(w: VarV, v: VarV) -> bool {
    &&& w.reference == v.reference
    &&& w.qualifier == v.qualifier
    &&& w.name == v.name
    &&& v.index.len() <= w.index.len()
    &&& w.index.subrange(0, v.index.len() as int) == v.index
}

proof fn lemma_extends_trans(a: VarV, b: VarV, c: VarV)
    requires
        extends(a, b),
        extends(b, c),
    ensures
        extends(a, c),
{
    assert(a.index.subrange(0, c.index.len() as int) =~= b.index.subrange(0, c.index.len() as int));
}

pub proof fn lemma_child_extends(w: VarV, v: VarV, i: nat, t: TypV)
    requires
        extends(w, child(v, i, t)),
    ensures
        extends(w, v),
        w.index.len() > v.index.len(),
        w.index[v.index.len() as int] == i as usize,
{
    let c = child(v, i, t);
    assert(extends(c, v)) by {
        assert(c.index.subrange(0, v.index.len() as int) =~= v.index);
    }
    lemma_extends_trans(w, c, v);
    assert(w.index[v.index.len() as int] == w.index.subrange(0, c.index.len() as int)[v.index.len() as int]);
}

/// Every slot of `v` is `v` itself or lies below it.
pub proof fn lemma_slots_extend(v: VarV)
    ensures
        forall|j: int| 0 <= j < slot_list(v).len() ==> extends(#[trigger] slot_list(v)[j], v),
    decreases v.typ, 0nat,
{
    match v.typ {
        TypV::Base(_) => {
            assert(v.index.subrange(0, v.index.len() as int) =~= v.index);
        },
        TypV::Vec(e, n) => {
            lemma_vec_slots_extend(v, *e, n);
        },
        TypV::Record(fs) => {
            lemma_rec_slots_extend(v, fs, fs.len());
        },
        _ => {
            assert forall|j: int| 0 <= j < slot_list(v).len() implies extends(#[trigger] slot_list(v)[j], v) by {
                assert(slot_list(v)[j].index.subrange(0, v.index.len() as int) =~= v.index);
            }
        },
    }
}

proof fn lemma_vec_slots_extend(v: VarV, e: TypV, n: nat)
    ensures
        forall|j: int| 0 <= j < vec_slots(v, e, n).len() ==> {
            let w = #[trigger] vec_slots(v, e, n)[j];
            &&& extends(w, v)
            &&& w.index.len() > v.index.len()
            &&& (w.index[v.index.len() as int] as nat) < n
        },
    decreases e, n,
{
    if n > 0 {
        let c = child(v, (n - 1) as nat, e);
        lemma_vec_slots_extend(v, e, (n - 1) as nat);
        lemma_slots_extend(c);
        let a = vec_slots(v, e, (n - 1) as nat);
        let b = slot_list(c);
        assert forall|j: int| 0 <= j < vec_slots(v, e, n).len() implies {
            let w = #[trigger] vec_slots(v, e, n)[j];
            &&& extends(w, v)
            &&& w.index.len() > v.index.len()
            &&& (w.index[v.index.len() as int] as nat) < n
        } by {
            if j >= a.len() {
                assert(vec_slots(v, e, n)[j] == b[j - a.len()]);
                lemma_child_extends(b[j - a.len()], v, (n - 1) as nat, e);
            } else {
                assert(vec_slots(v, e, n)[j] == a[j]);
            }
        }
    }
}

proof fn lemma_rec_slots_extend(v: VarV, fs: Seq<(Seq<char>, TypV)>, k: nat)
    ensures
        forall|j: int| 0 <= j < rec_slots(v, fs, k).len() ==> {
            let w = #[trigger] rec_slots(v, fs, k)[j];
            &&& extends(w, v)
            &&& w.index.len() > v.index.len()
            &&& (w.index[v.index.len() as int] as nat) < k
        },
    decreases fs, k,
{
    if k > 0 && k <= fs.len() {
        let c = child(v, (k - 1) as nat, fs[k - 1].1);
        lemma_rec_slots_extend(v, fs, (k - 1) as nat);
        lemma_slots_extend(c);
        let a = rec_slots(v, fs, (k - 1) as nat);
        let b = slot_list(c);
        assert forall|j: int| 0 <= j < rec_slots(v, fs, k).len() implies {
            let w = #[trigger] rec_slots(v, fs, k)[j];
            &&& extends(w, v)
            &&& w.index.len() > v.index.len()
            &&& (w.index[v.index.len() as int] as nat) < k
        } by {
            if j >= a.len() {
                assert(rec_slots(v, fs, k)[j] == b[j - a.len()]);
                lemma_child_extends(b[j - a.len()], v, (k - 1) as nat, fs[k - 1].1);
            } else {
                assert(rec_slots(v, fs, k)[j] == a[j]);
            }
        }
    }
}


/// Two variables of one shape have as many slots.
pub proof fn lemma_slot_count(v: VarV, w: VarV)
    requires
        v.typ == w.typ,
    ensures
        slot_list(v).len() == slot_list(w).len(),
    decreases v.typ, 0nat,
{
    match v.typ {
        TypV::Vec(e, n) => lemma_vec_count(v, w, *e, n),
        TypV::Record(fs) => lemma_rec_count(v, w, fs, fs.len()),
        _ => {},
    }
}

proof fn lemma_vec_count(v: VarV, w: VarV, e: TypV, n: nat)
    ensures
        vec_slots(v, e, n).len() == vec_slots(w, e, n).len(),
    decreases e, n,
{
    if n > 0 {
        lemma_vec_count(v, w, e, (n - 1) as nat);
        lemma_slot_count(child(v, (n - 1) as nat, e), child(w, (n - 1) as nat, e));
    }
}

proof fn lemma_rec_count(v: VarV, w: VarV, fs: Seq<(Seq<char>, TypV)>, k: nat)
    ensures
        rec_slots(v, fs, k).len() == rec_slots(w, fs, k).len(),
    decreases fs, k,
{
    if k > 0 && k <= fs.len() {
        lemma_rec_count(v, w, fs, (k - 1) as nat);
        lemma_slot_count(child(v, (k - 1) as nat, fs[k - 1].1), child(w, (k - 1) as nat, fs[k - 1].1));
    }
}

/// The physical slots of a variable are pairwise distinct.
pub proof fn lemma_slots_distinct(v: VarV)
    requires
        slots_ok(v.typ),
    ensures
        slot_list(v).no_duplicates(),
    decreases v.typ, 0nat,
{
    match v.typ {
        TypV::Base(_) => {},
        TypV::Vec(e, n) => {
            lemma_vec_slots_distinct(v, *e, n);
        },
        TypV::Record(fs) => {
            lemma_rec_slots_distinct(v, fs, fs.len());
        },
        _ => {
            let l = slot_list(v);
            assert(l.len() <= usize::MAX + 1);
            assert forall|i: int, j: int| 0 <= i < l.len() && 0 <= j < l.len() && i != j implies l[i] != l[j] by {
                assert(l[i].index.last() == i as usize);
                assert(l[j].index.last() == j as usize);
                assert(i as usize == i);
                assert(j as usize == j);
            }
        },
    }
}

proof fn lemma_vec_slots_distinct(v: VarV, e: TypV, n: nat)
    requires
        n <= usize::MAX,
        slots_ok(e),
    ensures
        vec_slots(v, e, n).no_duplicates(),
    decreases e, n,
{
    if n > 0 {
        let c = child(v, (n - 1) as nat, e);
        lemma_vec_slots_distinct(v, e, (n - 1) as nat);
        lemma_slots_distinct(c);
        lemma_vec_slots_extend(v, e, (n - 1) as nat);
        lemma_slots_extend(c);
        let a = vec_slots(v, e, (n - 1) as nat);
        let b = slot_list(c);
        let l = vec_slots(v, e, n);
        assert(l == a + b);
        assert forall|i: int, j: int| 0 <= i < l.len() && 0 <= j < l.len() && i != j implies l[i] != l[j] by {
            if i < a.len() && j >= a.len() {
                lemma_child_extends(b[j - a.len()], v, (n - 1) as nat, e);
                assert(l[i] == a[i]);
                assert(l[j] == b[j - a.len()]);
            } else if j < a.len() && i >= a.len() {
                lemma_child_extends(b[i - a.len()], v, (n - 1) as nat, e);
                assert(l[j] == a[j]);
                assert(l[i] == b[i - a.len()]);
            } else if i < a.len() {
                assert(l[i] == a[i] && l[j] == a[j]);
            } else {
                assert(l[i] == b[i - a.len()] && l[j] == b[j - a.len()]);
            }
        }
    }
}

proof fn lemma_rec_slots_distinct(v: VarV, fs: Seq<(Seq<char>, TypV)>, k: nat)
    requires
        k <= fs.len(),
        fs.len() <= usize::MAX,
        fields_ok(fs, k),
    ensures
        rec_slots(v, fs, k).no_duplicates(),
    decreases fs, k,
{
    if k > 0 {
        let c = child(v, (k - 1) as nat, fs[k - 1].1);
        lemma_fields_ok(fs, k, k - 1);
        lemma_rec_slots_distinct(v, fs, (k - 1) as nat);
        lemma_slots_distinct(c);
        lemma_rec_slots_extend(v, fs, (k - 1) as nat);
        lemma_slots_extend(c);
        let a = rec_slots(v, fs, (k - 1) as nat);
        let b = slot_list(c);
        let l = rec_slots(v, fs, k);
        assert(l == a + b);
        assert forall|i: int, j: int| 0 <= i < l.len() && 0 <= j < l.len() && i != j implies l[i] != l[j] by {
            if i < a.len() && j >= a.len() {
                lemma_child_extends(b[j - a.len()], v, (k - 1) as nat, fs[k - 1].1);
                assert(l[i] == a[i]);
                assert(l[j] == b[j - a.len()]);
            } else if j < a.len() && i >= a.len() {
                lemma_child_extends(b[i - a.len()], v, (k - 1) as nat, fs[k - 1].1);
                assert(l[j] == a[j]);
                assert(l[i] == b[i - a.len()]);
            } else if i < a.len() {
                assert(l[i] == a[i] && l[j] == a[j]);
            } else {
                assert(l[i] == b[i - a.len()] && l[j] == b[j - a.len()]);
            }
        }
    }
}


/// `w` lies below a logical slot of `v` numbered in `lo..hi`.
pub open spec fn below(w: VarV, v: VarV, lo: nat, hi: nat) -> bool {
    &&& extends(w, v)
    &&& w.index.len() > v.index.len()
    &&& lo <= w.index[v.index.len() as int]
    &&& w.index[v.index.len() as int] < hi
}

/// Every var of `s` lies below a logical slot of `v` numbered in `lo..hi`.
pub open spec fn all_below(s: Seq<VarV>, v: VarV, lo: nat, hi: nat) -> bool {
    forall|q: int| 0 <= q < s.len() ==> below(#[trigger] s[q], v, lo, hi)
}

/// The slots of child `i` of `v` lie below logical slot `i`.
pub proof fn lemma_child_slots_below(v: VarV, i: nat, t: TypV)
    requires
        i <= usize::MAX,
    ensures
        all_below(slot_list(child(v, i, t)), v, i, i + 1),
{
    let c = child(v, i, t);
    lemma_slots_extend(c);
    assert forall|q: int| 0 <= q < slot_list(c).len() implies below(#[trigger] slot_list(c)[q], v, i, i + 1) by {
        lemma_child_extends(slot_list(c)[q], v, i, t);
    }
}

/// Vars below slots `lo..mid` and vars below slots `mid..hi` of one var are
/// distinct, and together lie below slots `lo..hi`.
pub proof fn lemma_below_concat(s1: Seq<VarV>, s2: Seq<VarV>, v: VarV, lo: nat, mid: nat, hi: nat)
    requires
        all_below(s1, v, lo, mid),
        all_below(s2, v, mid, hi),
        lo <= mid <= hi,
    ensures
        s1.disjoint(s2),
        all_below(s1 + s2, v, lo, hi),
{
    assert forall|a: int, b: int| 0 <= a < s1.len() && 0 <= b < s2.len() implies s1[a] != s2[b] by {
        assert(below(s1[a], v, lo, mid));
        assert(below(s2[b], v, mid, hi));
    }
    assert forall|q: int| 0 <= q < (s1 + s2).len() implies below(#[trigger] (s1 + s2)[q], v, lo, hi) by {
        if q < s1.len() {
            assert((s1 + s2)[q] == s1[q]);
        } else {
            assert((s1 + s2)[q] == s2[q - s1.len()]);
        }
    }
}

/// A var below slots `lo..hi` lies below any wider range.
pub proof fn lemma_below_widen(s: Seq<VarV>, v: VarV, lo: nat, hi: nat, lo2: nat, hi2: nat)
    requires
        all_below(s, v, lo, hi),
        lo2 <= lo,
        hi <= hi2,
    ensures
        all_below(s, v, lo2, hi2),
{
}

/// `s` lies under `v`: the same node, qualifier and name, and an index
/// that extends `v`'s.
pub open spec fn under(v: VarV, s: VarV) -> bool {
    &&& s.reference == v.reference
    &&& s.qualifier == v.qualifier
    &&& s.name == v.name
    &&& v.index.len() <= s.index.len()
    &&& s.index.subrange(0, v.index.len() as int) == v.index
}

/// A slot is one scalar position: its shape is a base type other than
/// `Unit`.
pub open spec fn scalar_slot(s: VarV) -> bool {
    s.typ is Base && s.typ != TypV::Base(ABase::Unit)
}

/// The slots of `ss` are told apart by their indices.
pub open spec fn indices_apart(ss: Seq<VarV>) -> bool {
    forall|a: int, b: int| 0 <= a < b < ss.len() ==> ss[a].index != ss[b].index
}

/// Under a child of `v` means under `v`, below that child's position.
proof fn lemma_under_child(v: VarV, i: nat, t: TypV, s: VarV)
    requires
        i <= usize::MAX,
        under(child(v, i, t), s),
    ensures
        under(v, s),
        s.index.len() > v.index.len(),
        s.index[v.index.len() as int] == i,
{
    let c = child(v, i, t);
    assert(c.index.len() == v.index.len() + 1);
    assert(s.index[v.index.len() as int] == c.index[v.index.len() as int]);
    assert(s.index.subrange(0, c.index.len() as int) == c.index);
    assert(s.index.subrange(0, v.index.len() as int) =~= s.index.subrange(0, c.index.len() as int).subrange(0, v.index.len() as int));
    assert(c.index.subrange(0, v.index.len() as int) =~= v.index);
}

/// Each slot of a vector lies under one of its elements.
proof fn lemma_vec_slots_shape(v: VarV, e: TypV, n: nat)
    requires
        n <= usize::MAX,
        slots_ok(e),
    ensures
        forall|i: int| 0 <= i < vec_slots(v, e, n).len() ==> {
            let s = #[trigger] vec_slots(v, e, n)[i];
            &&& under(v, s)
            &&& scalar_slot(s)
            &&& s.index.len() > v.index.len()
            &&& s.index[v.index.len() as int] < n
        },
        indices_apart(vec_slots(v, e, n)),
    decreases e, n,
{
    if n > 0 {
        let k = (n - 1) as nat;
        lemma_vec_slots_shape(v, e, k);
        let c = child(v, k, e);
        lemma_slot_list_shape(c);
        lemma_slots_join(v, vec_slots(v, e, k), slot_list(c), k, e);
    }
}

/// Each slot of a record lies under one of its fields.
proof fn lemma_rec_slots_shape(v: VarV, fs: Seq<(Seq<char>, TypV)>, k: nat)
    requires
        fs.len() <= usize::MAX,
        fields_ok(fs, fs.len()),
    ensures
        forall|i: int| 0 <= i < rec_slots(v, fs, k).len() ==> {
            let s = #[trigger] rec_slots(v, fs, k)[i];
            &&& under(v, s)
            &&& scalar_slot(s)
            &&& s.index.len() > v.index.len()
            &&& s.index[v.index.len() as int] < k
        },
        indices_apart(rec_slots(v, fs, k)),
    decreases fs, k,
{
    if k > 0 && k <= fs.len() {
        let j = (k - 1) as nat;
        lemma_rec_slots_shape(v, fs, j);
        lemma_fields_ok(fs, fs.len(), j as int);
        let c = child(v, j, fs[j as int].1);
        lemma_slot_list_shape(c);
        lemma_slots_join(v, rec_slots(v, fs, j), slot_list(c), j, fs[j as int].1);
    } else if k > fs.len() {
        assert(rec_slots(v, fs, k) =~= Seq::<VarV>::empty());
    }
}

/// Joining the slots of earlier children with those under child `j`.
proof fn lemma_slots_join(v: VarV, front: Seq<VarV>, back: Seq<VarV>, j: nat, t: TypV)
    requires
        j <= usize::MAX,
        forall|i: int| 0 <= i < front.len() ==> {
            let s = #[trigger] front[i];
            &&& under(v, s)
            &&& scalar_slot(s)
            &&& s.index.len() > v.index.len()
            &&& s.index[v.index.len() as int] < j
        },
        indices_apart(front),
        forall|i: int| 0 <= i < back.len() ==> under(child(v, j, t), #[trigger] back[i]),
        forall|i: int| 0 <= i < back.len() ==> scalar_slot(#[trigger] back[i]),
        indices_apart(back),
    ensures
        forall|i: int| 0 <= i < (front + back).len() ==> {
            let s = #[trigger] (front + back)[i];
            &&& under(v, s)
            &&& scalar_slot(s)
            &&& s.index.len() > v.index.len()
            &&& s.index[v.index.len() as int] < j + 1
        },
        indices_apart(front + back),
{
    let all = front + back;
    assert forall|i: int| 0 <= i < back.len() implies {
        let s = #[trigger] back[i];
        &&& under(v, s)
        &&& s.index.len() > v.index.len()
        &&& s.index[v.index.len() as int] == j
    } by {
        lemma_under_child(v, j, t, back[i]);
    }
    assert forall|i: int| 0 <= i < all.len() implies {
        let s = #[trigger] all[i];
        &&& under(v, s)
        &&& scalar_slot(s)
        &&& s.index.len() > v.index.len()
        &&& s.index[v.index.len() as int] < j + 1
    } by {
        if i < front.len() {
            assert(all[i] == front[i]);
        } else {
            assert(all[i] == back[i - front.len()]);
        }
    }
    assert forall|a: int, b: int| 0 <= a < b < all.len() implies all[a].index != all[b].index by {
        if b < front.len() {
            assert(all[a] == front[a] && all[b] == front[b]);
        } else if a >= front.len() {
            assert(all[a] == back[a - front.len()] && all[b] == back[b - front.len()]);
        } else {
            assert(all[a] == front[a] && all[b] == back[b - front.len()]);
            assert(all[a].index[v.index.len() as int] != all[b].index[v.index.len() as int]);
        }
    }
}

/// Law: the slots of a var lie under it (same node, qualifier and name,
/// an index extending its own), are each a scalar position, and are told
/// apart by their indices.
pub proof fn lemma_slot_list_shape(v: VarV)
    requires
        slots_ok(v.typ),
    ensures
        forall|i: int| 0 <= i < slot_list(v).len() ==> under(v, #[trigger] slot_list(v)[i]) && scalar_slot(slot_list(v)[i]),
        indices_apart(slot_list(v)),
    decreases v.typ, 0nat,
{
    let sl = slot_list(v);
    match v.typ {
        TypV::Base(ABase::Unit) => {},
        TypV::Base(_) => {
            assert(sl[0] == v);
            assert(v.index.subrange(0, v.index.len() as int) =~= v.index);
        },
        TypV::Uni(_) | TypV::Mle(_) | TypV::VPoly(_, _) => {
            assert forall|i: int| 0 <= i < sl.len() implies under(v, #[trigger] sl[i]) && scalar_slot(sl[i]) by {
                assert(sl[i] == child(v, i as nat, TypV::Base(ABase::Scalar)));
                assert(sl[i].index.subrange(0, v.index.len() as int) =~= v.index);
            }
            assert forall|a: int, b: int| 0 <= a < b < sl.len() implies sl[a].index != sl[b].index by {
                assert(sl[a].index[v.index.len() as int] == a as usize);
                assert(sl[b].index[v.index.len() as int] == b as usize);
            }
        },
        TypV::Vec(e, n) => {
            lemma_vec_slots_shape(v, *e, n);
        },
        TypV::Record(fs) => {
            lemma_rec_slots_shape(v, fs, fs.len());
        },
    }
}

/// No part of shape `t` is `Unit`.
pub open spec fn unit_free(t: TypV) -> bool
    decreases t,
{
    match t {
        TypV::Base(b) => b != ABase::Unit,
        TypV::Vec(e, _) => unit_free(*e),
        TypV::Record(fs) => fields_unit_free(fs, fs.len()),
        _ => true,
    }
}

/// No part of the first `k` fields' shapes is `Unit`.
pub open spec fn fields_unit_free(fs: Seq<(Seq<char>, TypV)>, k: nat) -> bool
    decreases fs, k,
{
    if k == 0 || k > fs.len() {
        true
    } else {
        fields_unit_free(fs, (k - 1) as nat) && unit_free(fs[k - 1].1)
    }
}

/// Law: a var whose shape has no `Unit` part has one slot per physical
/// position of its shape.
pub proof fn lemma_slots_per_position(v: VarV)
    requires
        unit_free(v.typ),
    ensures
        slot_list(v).len() == plen(v.typ),
    decreases v.typ, 0nat,
{
    match v.typ {
        TypV::Vec(e, n) => {
            lemma_vec_slot_count(v, *e, n);
        },
        TypV::Record(fs) => {
            lemma_rec_slot_count(v, fs, fs.len());
            assert(fs.subrange(0, fs.len() as int) =~= fs);
        },
        _ => {},
    }
}

proof fn lemma_vec_slot_count(v: VarV, e: TypV, n: nat)
    requires
        unit_free(e),
    ensures
        vec_slots(v, e, n).len() == n * plen(e),
    decreases e, n,
{
    if n > 0 {
        let k = (n - 1) as nat;
        lemma_vec_slot_count(v, e, k);
        lemma_slots_per_position(child(v, k, e));
        assert(vec_slots(v, e, n).len() == vec_slots(v, e, k).len() + slot_list(child(v, k, e)).len());
        assert(k * plen(e) + plen(e) == n * plen(e)) by (nonlinear_arith)
            requires
                k + 1 == n,
        ;
    } else {
        assert(n * plen(e) == 0) by (nonlinear_arith)
            requires
                n == 0,
        ;
    }
}

proof fn lemma_rec_slot_count(v: VarV, fs: Seq<(Seq<char>, TypV)>, k: nat)
    requires
        fields_unit_free(fs, fs.len()),
        k <= fs.len(),
    ensures
        rec_slots(v, fs, k).len() == plen_fields(fs.subrange(0, k as int)),
    decreases fs, k,
{
    if k > 0 {
        let j = (k - 1) as nat;
        lemma_rec_slot_count(v, fs, j);
        lemma_fields_unit_free(fs, fs.len(), j as int);
        lemma_slots_per_position(child(v, j, fs[j as int].1));
        let pre = fs.subrange(0, k as int);
        assert(pre.drop_last() =~= fs.subrange(0, j as int));
        assert(pre.last() == fs[j as int]);
    } else {
        assert(fs.subrange(0, 0) =~= Seq::<(Seq<char>, TypV)>::empty());
    }
}

proof fn lemma_fields_unit_free(fs: Seq<(Seq<char>, TypV)>, k: nat, j: int)
    requires
        fields_unit_free(fs, k),
        k <= fs.len(),
        0 <= j < k,
    ensures
        unit_free(fs[j].1),
    decreases k,
{
    if j < k - 1 {
        lemma_fields_unit_free(fs, (k - 1) as nat, j);
    }
}

} // verus!

//! Allocation of fresh sentinel variables and generated names, shared by the
//! ideals one builder produces.
use vstd::prelude::*;

use crate::ideal::Ideal;
use crate::text::{dec, lemma_dec_injective, push_decimal, sep};
use crate::typ::ATyp;
use crate::var::{Qualifier, Ref, Var, VarV};

verus! {

/// The shape of a polynomial operand of a division, as compared between
/// division witnesses.
#[derive(Clone, Copy, PartialEq, Eq, Structural, Debug)]
pub struct CanonPolyTyp {
    pub num_vars: usize,
    pub max_degree: usize,
}

/// The operands of a polynomial division, by shape and slot names; equal
/// keys share one quotient/remainder witness pair.
#[derive(Clone, Debug)]
pub struct DivWitnessKey {
    pub dividend_typ: CanonPolyTyp,
    pub divisor_typ: CanonPolyTyp,
    pub dividend_slots: Vec<String>,
    pub divisor_slots: Vec<String>,
}

/// The prefix of every generated name, `__zippel::gb::`.
pub open spec fn gb_prefix() -> Seq<char> {
    "__zippel::gb::"@
}

/// The generated name for `key` with counter `c`: `__zippel::gb::<key>::<c>`.
pub open spec fn gb_name(key: Seq<char>, c: nat) -> Seq<char> {
    gb_prefix() + key + sep() + dec(c)
}

/// Generated names for one key never repeat.
pub proof fn lemma_gb_names_distinct(key: Seq<char>, c1: nat, c2: nat)
    requires
        c1 != c2,
    ensures
        gb_name(key, c1) != gb_name(key, c2),
{
    let p = gb_prefix() + key + sep();
    if gb_name(key, c1) == gb_name(key, c2) {
        assert(gb_name(key, c1).subrange(p.len() as int, gb_name(key, c1).len() as int) =~= dec(c1));
        assert(gb_name(key, c2).subrange(p.len() as int, gb_name(key, c2).len() as int) =~= dec(c2));
        lemma_dec_injective(c1, c2);
    }
}

/// Counter entries for distinct keys.
pub open spec fn counters_distinct(s: Seq<(String, usize)>) -> bool {
    forall|i: int, j: int| 0 <= i < j < s.len() ==> s[i].0@ != s[j].0@
}

/// Division witnesses, lead-coefficient inverses, and the counters behind
/// fresh sentinels and generated names.
#[derive(Debug)]
pub struct IdealNamespace {
    /// Quotient and remainder witnesses per division operand key.
    pub div_wit: Vec<(DivWitnessKey, (Var, Var))>,
    /// Leading-coefficient inverse variable per argument node.
    pub arg_inv: Vec<(Ref, Var)>,
    sentinel_counter: usize,
    name_counters: Vec<(String, usize)>,
}

impl IdealNamespace {
    /// Node index the next sentinel receives; sentinels count down from the
    /// top of the index range so they never meet graph nodes.
    pub closed spec fn next_sentinel(&self) -> nat {
        self.sentinel_counter as nat
    }

    /// The sentinel counter is a machine word.
    pub proof fn lemma_next_sentinel_fits(&self)
        ensures
            self.next_sentinel() <= usize::MAX,
    {
    }

    /// The next sentinel index.
    pub fn sentinels_left(&self) -> (r: usize)
        ensures
            r == self.next_sentinel(),
    {
        self.sentinel_counter
    }

    /// How many names have been generated for `key`.
    pub closed spec fn count(&self, key: Seq<char>) -> nat {
        if exists|i: int| 0 <= i < self.name_counters@.len() && self.name_counters@[i].0@ == key {
            self.name_counters@[choose|i: int| 0 <= i < self.name_counters@.len() && self.name_counters@[i].0@ == key].1 as nat
        } else {
            0
        }
    }

    /// The recorded division witnesses.
    pub closed spec fn witnesses(&self) -> Seq<(DivWitnessKey, (Var, Var))> {
        self.div_wit@
    }

    /// The recorded lead-coefficient inverses.
    pub closed spec fn inverses(&self) -> Seq<(Ref, Var)> {
        self.arg_inv@
    }

    pub closed spec fn wf(&self) -> bool {
        counters_distinct(self.name_counters@)
    }

    proof fn lemma_count_at(&self, i: int)
        requires
            self.wf(),
            0 <= i < self.name_counters@.len(),
        ensures
            self.count(self.name_counters@[i].0@) == self.name_counters@[i].1,
    {
        let key = self.name_counters@[i].0@;
        let c = choose|j: int| 0 <= j < self.name_counters@.len() && self.name_counters@[j].0@ == key;
        if c != i {
            if c < i {
                assert(self.name_counters@[c].0@ != self.name_counters@[i].0@);
            } else {
                assert(self.name_counters@[i].0@ != self.name_counters@[c].0@);
            }
        }
    }

    /// A namespace with no witnesses and no names generated yet.
    pub fn new() -> (r: IdealNamespace)
        ensures
            r.wf(),
            r.next_sentinel() == usize::MAX,
            forall|key: Seq<char>| #[trigger] r.count(key) == 0,
            r.witnesses().len() == 0,
            r.inverses().len() == 0,
    {
        IdealNamespace { div_wit: Vec::new(), arg_inv: Vec::new(), sentinel_counter: usize::MAX, name_counters: Vec::new() }
    }

    /// A fresh local variable named `name` for the next sentinel node.
    pub fn sentinel_var(&mut self, name: &str, typ: ATyp) -> (r: Var)
        requires
            old(self).wf(),
            old(self).next_sentinel() > 0,
        ensures
            final(self).wf(),
            r@ == (VarV {
                reference: Ref(old(self).next_sentinel() as usize),
                index: Seq::empty(),
                typ: typ@,
                qualifier: Qualifier::Local,
                name: name@,
            }),
            final(self).next_sentinel() == old(self).next_sentinel() - 1,
            forall|key: Seq<char>| #[trigger] final(self).count(key) == old(self).count(key),
            final(self).witnesses() == old(self).witnesses(),
            final(self).inverses() == old(self).inverses(),
    {
        let idx = self.sentinel_counter;
        self.sentinel_counter = self.sentinel_counter - 1;
        Var::from_var(name.to_owned(), idx, typ, Qualifier::Local)
    }

    /// The next generated name for `key`, `__zippel::gb::<key>::<n>` where `n`
    /// counts the names generated for `key` before.
    pub fn next_name(&mut self, key: &str) -> (r: String)
        requires
            old(self).wf(),
            old(self).count(key@) < usize::MAX,
        ensures
            final(self).wf(),
            r@ == gb_name(key@, old(self).count(key@)),
            final(self).count(key@) == old(self).count(key@) + 1,
            forall|k: Seq<char>| k != key@ ==> #[trigger] final(self).count(k) == old(self).count(k),
            final(self).next_sentinel() == old(self).next_sentinel(),
            final(self).witnesses() == old(self).witnesses(),
            final(self).inverses() == old(self).inverses(),
    {
        let owned = key.to_owned();
        let mut i: usize = 0;
        while i < self.name_counters.len()
            invariant
                i <= self.name_counters@.len(),
                *self == *old(self),
                self.wf(),
                old(self).count(key@) < usize::MAX,
                owned@ == key@,
                forall|j: int| 0 <= j < i ==> self.name_counters@[j].0@ != key@,
            decreases self.name_counters@.len() - i,
        {
            if self.name_counters[i].0 == owned {
                proof {
                    self.lemma_count_at(i as int);
                }
                let c = self.name_counters[i].1;
                let name = generated_name(key, c);
                let ghost before = self.name_counters@;
                self.name_counters.set(i, (owned, c + 1));
                proof {
                    assert(counters_distinct(self.name_counters@)) by {
                        assert forall|a: int, b: int| 0 <= a < b < self.name_counters@.len() implies
                            self.name_counters@[a].0@ != self.name_counters@[b].0@ by {
                            assert(before[a].0@ != before[b].0@);
                        }
                    }
                    self.lemma_count_at(i as int);
                    assert forall|k: Seq<char>| k != key@ implies #[trigger] self.count(k) == old(self).count(k) by {
                        if exists|j: int| 0 <= j < before.len() && before[j].0@ == k {
                            let j = choose|j: int| 0 <= j < before.len() && before[j].0@ == k;
                            old(self).lemma_count_at(j);
                            self.lemma_count_at(j);
                        } else {
                            assert forall|j: int| 0 <= j < self.name_counters@.len() implies self.name_counters@[j].0@ != k by {
                                if j != i {
                                    assert(self.name_counters@[j] == before[j]);
                                }
                            }
                        }
                    }
                }
                return name;
            }
            i = i + 1;
        }
        proof {
            assert(!(exists|j: int| 0 <= j < self.name_counters@.len() && self.name_counters@[j].0@ == key@));
            assert(self.count(key@) == 0);
        }
        let name = generated_name(key, 0);
        let ghost before = self.name_counters@;
        self.name_counters.push((owned, 1));
        proof {
            assert(counters_distinct(self.name_counters@)) by {
                assert forall|a: int, b: int| 0 <= a < b < self.name_counters@.len() implies
                    self.name_counters@[a].0@ != self.name_counters@[b].0@ by {
                    if b < before.len() {
                        assert(before[a].0@ != before[b].0@);
                    } else {
                        assert(self.name_counters@[a] == before[a]);
                    }
                }
            }
            self.lemma_count_at(before.len() as int);
            assert forall|k: Seq<char>| k != key@ implies #[trigger] self.count(k) == old(self).count(k) by {
                if exists|j: int| 0 <= j < before.len() && before[j].0@ == k {
                    let j = choose|j: int| 0 <= j < before.len() && before[j].0@ == k;
                    old(self).lemma_count_at(j);
                    self.lemma_count_at(j);
                } else {
                    assert forall|j: int| 0 <= j < self.name_counters@.len() implies self.name_counters@[j].0@ != k by {
                        if j < before.len() {
                            assert(self.name_counters@[j] == before[j]);
                        }
                    }
                }
            }
        }
        name
    }
}

/// `__zippel::gb::<key>::<c>`.
fn generated_name(key: &str, c: usize) -> (r: String)
    ensures
        r@ == gb_name(key@, c as nat),
{
    let mut s = String::new();
    s.append("__zippel::gb::");
    s.append(key);
    s.append("::");
    proof {
        reveal_strlit("::");
    }
    push_decimal(&mut s, c);
    assert(s@ =~= gb_name(key@, c as nat));
    s
}

/// Builds ideals; owns the namespace that keeps generated witnesses and
/// sentinels stable across builds.
#[derive(Debug)]
pub struct IdealBuilder {
    pub ns: IdealNamespace,
}

impl IdealBuilder {
    pub fn new() -> (r: IdealBuilder)
        ensures
            r.ns.wf(),
            r.ns.next_sentinel() == usize::MAX,
            forall|key: Seq<char>| #[trigger] r.ns.count(key) == 0,
    {
        IdealBuilder { ns: IdealNamespace::new() }
    }

    /// A fresh sentinel variable, also recorded in `ideal`'s introduction
    /// order.
    pub fn sentinel_var(&mut self, name: &str, typ: ATyp, ideal: &mut Ideal) -> (r: Var)
        requires
            old(self).ns.wf(),
            old(self).ns.next_sentinel() > 0,
        ensures
            final(self).ns.wf(),
            r@ == (VarV {
                reference: Ref(old(self).ns.next_sentinel() as usize),
                index: Seq::empty(),
                typ: typ@,
                qualifier: Qualifier::Local,
                name: name@,
            }),
            final(self).ns.next_sentinel() == old(self).ns.next_sentinel() - 1,
            forall|key: Seq<char>| #[trigger] final(self).ns.count(key) == old(self).ns.count(key),
            final(self).ns.witnesses() == old(self).ns.witnesses(),
            final(self).ns.inverses() == old(self).ns.inverses(),
            final(ideal).generating_set == old(ideal).generating_set,
            final(ideal).pl == old(ideal).pl,
            final(ideal).vars == old(ideal).vars,
            final(ideal).var_order@.len() == old(ideal).var_order@.len() + 1,
            forall|i: int| 0 <= i < old(ideal).var_order@.len() ==> #[trigger] final(ideal).var_order@[i] == old(ideal).var_order@[i],
            final(ideal).var_order@.last()@ == r@,
    {
        let var = self.ns.sentinel_var(name, typ);
        ideal.var_order.push(var.clone());
        var
    }
}

} // verus!

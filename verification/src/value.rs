//! Literal values of the language, as far as the analyses read them.
use vstd::prelude::*;

use crate::field::Fe;

verus! {

/// A literal value: a field scalar, a boolean, a bounded index, unit, or a
/// vector of values in general or packed form.
#[derive(Debug)]
pub enum Value {
    Scalar(Fe),
    Bool(bool),
    Index(usize),
    Unit,
    Vec(Vec<Value>),
    VecScalar(Vec<Fe>),
    VecIndex(Vec<usize>),
    VecBool(Vec<bool>),
}

/// Whether `v` has a reading as field constants: no booleans at any depth.
pub open spec fn const_readable(v: Value) -> bool
    decreases v, 0nat,
{
    match v {
        Value::Bool(_) | Value::VecBool(_) => false,
        Value::Vec(items) => items_readable(items@, items@.len()),
        _ => true,
    }
}

/// The first `k` of `items` are [`const_readable`].
pub open spec fn items_readable(items: Seq<Value>, k: nat) -> bool
    decreases items, k,
{
    if k == 0 || k > items.len() {
        true
    } else {
        items_readable(items, (k - 1) as nat) && const_readable(items[k - 1])
    }
}

/// The field constants of the scalar slots of `v`, flattened in order.
pub open spec fn value_consts(v: Value) -> Seq<nat>
    decreases v, 0nat,
{
    match v {
        Value::Scalar(c) => seq![c.val()],
        Value::Index(i) => seq![i as nat],
        Value::Vec(items) => items_consts(items@, items@.len()),
        Value::VecScalar(cs) => cs@.map_values(|c: Fe| c.val()),
        Value::VecIndex(is) => is@.map_values(|i: usize| i as nat),
        _ => Seq::empty(),
    }
}

/// Constants of the first `k` of `items`, concatenated.
pub open spec fn items_consts(items: Seq<Value>, k: nat) -> Seq<nat>
    decreases items, k,
{
    if k == 0 || k > items.len() {
        Seq::empty()
    } else {
        items_consts(items, (k - 1) as nat) + value_consts(items[k - 1])
    }
}

} // verus!

//! The data model: the value tree that the codec encodes and decodes, and its
//! mathematical model.

use vstd::prelude::*;

verus! {

/// A data-model value.
///
/// A float is held as the IEEE 754 bit pattern of a double. A link holds the
/// binary form of a content identifier. A map holds its entries in the order
/// they were given; its encoding orders them canonically.
#[derive(Debug, PartialEq)]
pub enum Ipld {
    Null,
    Bool(bool),
    Integer(i128),
    Float(u64),
    String(String),
    Bytes(Vec<u8>),
    List(Vec<Ipld>),
    Dict(Vec<(String, Ipld)>),
    Link(Vec<u8>),
}

/// The mathematical model of an [`Ipld`] value.
pub enum Value {
    Null,
    Bool(bool),
    Integer(int),
    Float(u64),
    Text(Seq<char>),
    Bytes(Seq<u8>),
    List(Seq<Value>),
    Dict(Seq<(Seq<char>, Value)>),
    Link(Seq<u8>),
}

/// The models of a sequence of values.
pub open spec fn models(s: Seq<Ipld>) -> Seq<Value>
    decreases s,
{
    if s.len() == 0 {
        Seq::empty()
    } else {
        models(s.drop_last()).push(model_of(s.last()))
    }
}

/// The models of a sequence of map entries.
pub open spec fn entry_models(s: Seq<(String, Ipld)>) -> Seq<(Seq<char>, Value)>
    decreases s,
{
    if s.len() == 0 {
        Seq::empty()
    } else {
        entry_models(s.drop_last()).push((s.last().0@, model_of(s.last().1)))
    }
}

/// The model of a value.
pub open spec fn model_of(v: Ipld) -> Value
    decreases v,
{
    match v {
        Ipld::Null => Value::Null,
        Ipld::Bool(b) => Value::Bool(b),
        Ipld::Integer(i) => Value::Integer(i as int),
        Ipld::Float(f) => Value::Float(f),
        Ipld::String(s) => Value::Text(s@),
        Ipld::Bytes(b) => Value::Bytes(b@),
        Ipld::List(l) => Value::List(models(l@)),
        Ipld::Dict(m) => Value::Dict(entry_models(m@)),
        Ipld::Link(c) => Value::Link(c@),
    }
}

impl View for Ipld {
    type V = Value;

    open spec fn view(&self) -> Value {
        model_of(*self)
    }
}

} // verus!

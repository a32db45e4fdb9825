//! The value and type algebra: closed variants over primitive kinds and
//! composite shapes, with deep structural views and verified deep copies.
//!
//! The two floating-point kinds are carried as their IEEE-754 bit patterns
//! (`u64` for the 64-bit kind, `u32` for the 32-bit kind); callers that work
//! with native floats convert at the boundary.

use vstd::prelude::*;
use crate::strmap::StrMap;

verus! {

/// A type in the schema algebra.
///
/// `Table` refers to another table type by name; `PrototypeReference` names a
/// prototype family; `PrototypeReference2` restricts a reference to one of
/// several families; `PrototypeReferenceBase` admits the named family or any
/// of its descendants; `StringLiteral` is a fixed constant, the one type whose
/// value is never subject to a per-instance default; `TableWithOverrides` is
/// structurally a table reference whose field defaults are overridden in one
/// usage context.
#[derive(Debug, PartialEq, Eq)]
pub enum Type {
    Bool,
    Double,
    Float,
    Int16,
    Int32,
    Int64,
    Int8,
    String,
    Uint16,
    Uint32,
    Uint64,
    Uint8,
    Array(Box<Type>),
    Table(String),
    Variant(Vec<Type>),
    Tuple(Vec<Type>),
    PrototypeReference(String),
    PrototypeReference2(Vec<String>),
    PrototypeReferenceBase(String),
    StringLiteral(String),
    TableWithOverrides(String, StrMap<Value>),
}

/// A value in the schema algebra, mirroring `Type`'s primitives.
///
/// `Variant` wraps a single alternative without recording which one;
/// `Nil` is the explicit absence of a value, used for optional fields
/// that carry no default.
#[derive(Debug, PartialEq, Eq)]
pub enum Value {
    Bool(bool),
    Double(u64),
    Float(u32),
    Int16(i16),
    Int32(i32),
    Int64(i64),
    Int8(i8),
    String(String),
    Uint16(u16),
    Uint32(u32),
    Uint64(u64),
    Uint8(u8),
    Array(Vec<Value>),
    Table(StrMap<Value>),
    Variant(Box<Value>),
    Tuple(Vec<Value>),
    PrototypeReference(String),
    Nil,
}

/// The mathematical shape of a `Type`.
pub ghost enum TypeV {
    Bool,
    Double,
    Float,
    Int16,
    Int32,
    Int64,
    Int8,
    String,
    Uint16,
    Uint32,
    Uint64,
    Uint8,
    Array(Box<TypeV>),
    Table(Seq<char>),
    Variant(Seq<TypeV>),
    Tuple(Seq<TypeV>),
    PrototypeReference(Seq<char>),
    PrototypeReference2(Seq<Seq<char>>),
    PrototypeReferenceBase(Seq<char>),
    StringLiteral(Seq<char>),
    TableWithOverrides(Seq<char>, Seq<(Seq<char>, ValueV)>),
}

/// The mathematical shape of a `Value`.
pub ghost enum ValueV {
    Bool(bool),
    Double(u64),
    Float(u32),
    Int16(i16),
    Int32(i32),
    Int64(i64),
    Int8(i8),
    String(Seq<char>),
    Uint16(u16),
    Uint32(u32),
    Uint64(u64),
    Uint8(u8),
    Array(Seq<ValueV>),
    Table(Seq<(Seq<char>, ValueV)>),
    Variant(Box<ValueV>),
    Tuple(Seq<ValueV>),
    PrototypeReference(Seq<char>),
    Nil,
}

/// The deep structural view of a value.
pub open spec fn value_dv(v: Value) -> ValueV
    decreases v,
{
    match v {
        Value::Bool(b) => ValueV::Bool(b),
        Value::Double(b) => ValueV::Double(b),
        Value::Float(b) => ValueV::Float(b),
        Value::Int16(x) => ValueV::Int16(x),
        Value::Int32(x) => ValueV::Int32(x),
        Value::Int64(x) => ValueV::Int64(x),
        Value::Int8(x) => ValueV::Int8(x),
        Value::String(s) => ValueV::String(s@),
        Value::Uint16(x) => ValueV::Uint16(x),
        Value::Uint32(x) => ValueV::Uint32(x),
        Value::Uint64(x) => ValueV::Uint64(x),
        Value::Uint8(x) => ValueV::Uint8(x),
        Value::Array(a) => ValueV::Array(values_dv(a@)),
        Value::Table(m) => ValueV::Table(fields_dv(m.entries@)),
        Value::Variant(b) => ValueV::Variant(Box::new(value_dv(*b))),
        Value::Tuple(a) => ValueV::Tuple(values_dv(a@)),
        Value::PrototypeReference(s) => ValueV::PrototypeReference(s@),
        Value::Nil => ValueV::Nil,
    }
}

/// The deep views of a sequence of values, elementwise.
pub open spec fn values_dv(s: Seq<Value>) -> Seq<ValueV>
    decreases s,
{
    if s.len() == 0 {
        Seq::empty()
    } else {
        values_dv(s.drop_last()).push(value_dv(s.last()))
    }
}

/// The deep views of named values, elementwise.
pub open spec fn fields_dv(s: Seq<(String, Value)>) -> Seq<(Seq<char>, ValueV)>
    decreases s,
{
    if s.len() == 0 {
        Seq::empty()
    } else {
        fields_dv(s.drop_last()).push((s.last().0@, value_dv(s.last().1)))
    }
}

/// The deep structural view of a type.
pub open spec fn type_dv(t: Type) -> TypeV
    decreases t,
{
    match t {
        Type::Bool => TypeV::Bool,
        Type::Double => TypeV::Double,
        Type::Float => TypeV::Float,
        Type::Int16 => TypeV::Int16,
        Type::Int32 => TypeV::Int32,
        Type::Int64 => TypeV::Int64,
        Type::Int8 => TypeV::Int8,
        Type::String => TypeV::String,
        Type::Uint16 => TypeV::Uint16,
        Type::Uint32 => TypeV::Uint32,
        Type::Uint64 => TypeV::Uint64,
        Type::Uint8 => TypeV::Uint8,
        Type::Array(b) => TypeV::Array(Box::new(type_dv(*b))),
        Type::Table(s) => TypeV::Table(s@),
        Type::Variant(a) => TypeV::Variant(types_dv(a@)),
        Type::Tuple(a) => TypeV::Tuple(types_dv(a@)),
        Type::PrototypeReference(s) => TypeV::PrototypeReference(s@),
        Type::PrototypeReference2(a) => TypeV::PrototypeReference2(names_dv(a@)),
        Type::PrototypeReferenceBase(s) => TypeV::PrototypeReferenceBase(s@),
        Type::StringLiteral(s) => TypeV::StringLiteral(s@),
        Type::TableWithOverrides(s, m) => TypeV::TableWithOverrides(s@, fields_dv(m.entries@)),
    }
}

/// The deep views of a sequence of types, elementwise.
pub open spec fn types_dv(s: Seq<Type>) -> Seq<TypeV>
    decreases s,
{
    if s.len() == 0 {
        Seq::empty()
    } else {
        types_dv(s.drop_last()).push(type_dv(s.last()))
    }
}

/// The views of a sequence of names, elementwise.
pub open spec fn names_dv(s: Seq<String>) -> Seq<Seq<char>> {
    s.map_values(|n: String| n@)
}

/// `values_dv` maps elementwise.
pub proof fn lemma_values_dv(s: Seq<Value>)
    ensures
        values_dv(s).len() == s.len(),
        forall|i: int| 0 <= i < s.len() ==> values_dv(s)[i] == value_dv(s[i]),
    decreases s.len(),
{
    if s.len() > 0 {
        lemma_values_dv(s.drop_last());
    }
}

/// `fields_dv` maps elementwise.
pub proof fn lemma_fields_dv(s: Seq<(String, Value)>)
    ensures
        fields_dv(s).len() == s.len(),
        forall|i: int|
            0 <= i < s.len() ==> fields_dv(s)[i] == (s[i].0@, value_dv(s[i].1)),
    decreases s.len(),
{
    if s.len() > 0 {
        lemma_fields_dv(s.drop_last());
    }
}

/// `types_dv` maps elementwise.
pub proof fn lemma_types_dv(s: Seq<Type>)
    ensures
        types_dv(s).len() == s.len(),
        forall|i: int| 0 <= i < s.len() ==> types_dv(s)[i] == type_dv(s[i]),
    decreases s.len(),
{
    if s.len() > 0 {
        lemma_types_dv(s.drop_last());
    }
}

/// A deep copy of a value, structurally equal to the original.
pub fn clone_value(v: &Value) -> (r: Value)
    ensures
        value_dv(r) == value_dv(*v),
    decreases *v,
{
    match v {
        Value::Bool(b) => Value::Bool(*b),
        Value::Double(b) => Value::Double(*b),
        Value::Float(b) => Value::Float(*b),
        Value::Int16(x) => Value::Int16(*x),
        Value::Int32(x) => Value::Int32(*x),
        Value::Int64(x) => Value::Int64(*x),
        Value::Int8(x) => Value::Int8(*x),
        Value::String(s) => Value::String(s.clone()),
        Value::Uint16(x) => Value::Uint16(*x),
        Value::Uint32(x) => Value::Uint32(*x),
        Value::Uint64(x) => Value::Uint64(*x),
        Value::Uint8(x) => Value::Uint8(*x),
        Value::Array(a) => Value::Array(clone_values(a)),
        Value::Table(m) => Value::Table(clone_fields(m)),
        Value::Variant(b) => Value::Variant(Box::new(clone_value(&**b))),
        Value::Tuple(a) => Value::Tuple(clone_values(a)),
        Value::PrototypeReference(s) => Value::PrototypeReference(s.clone()),
        Value::Nil => Value::Nil,
    }
}

/// A deep copy of a vector of values.
pub fn clone_values(a: &Vec<Value>) -> (r: Vec<Value>)
    ensures
        values_dv(r@) == values_dv(a@),
    decreases *a,
{
    let mut out: Vec<Value> = Vec::new();
    let mut i: usize = 0;
    while i < a.len()
        invariant
            i <= a@.len(),
            out@.len() == i,
            forall|j: int| 0 <= j < i ==> value_dv(out@[j]) == value_dv(a@[j]),
        decreases a@.len() - i,
    {
        proof {
            assert(decreases_to!(*a => a@[i as int]));
        }
        out.push(clone_value(&a[i]));
        i = i + 1;
    }
    proof {
        lemma_values_dv(out@);
        lemma_values_dv(a@);
        assert(values_dv(out@) =~= values_dv(a@));
    }
    out
}

/// A deep copy of a map of named values.
pub fn clone_fields(m: &StrMap<Value>) -> (r: StrMap<Value>)
    ensures
        fields_dv(r.entries@) == fields_dv(m.entries@),
        m.wf() ==> r.wf(),
    decreases *m,
{
    let mut out: Vec<(String, Value)> = Vec::new();
    let mut i: usize = 0;
    while i < m.entries.len()
        invariant
            i <= m.entries@.len(),
            out@.len() == i,
            forall|j: int|
                0 <= j < i ==> out@[j].0@ == m.entries@[j].0@
                    && value_dv(out@[j].1) == value_dv(m.entries@[j].1),
        decreases m.entries@.len() - i,
    {
        proof {
            assert(decreases_to!(*m => m.entries@[i as int]));
        }
        let name = m.entries[i].0.clone();
        let val = clone_value(&m.entries[i].1);
        out.push((name, val));
        i = i + 1;
    }
    proof {
        lemma_fields_dv(out@);
        lemma_fields_dv(m.entries@);
        assert(fields_dv(out@) =~= fields_dv(m.entries@));
        if m.wf() {
            assert forall|p: int, q: int| 0 <= p < q < out@.len() implies
                out@[p].0@ != out@[q].0@ by {
                assert(m.entries@[p].0@ != m.entries@[q].0@);
            }
        }
    }
    StrMap { entries: out }
}

/// A deep copy of a type, structurally equal to the original.
pub fn clone_type(t: &Type) -> (r: Type)
    ensures
        type_dv(r) == type_dv(*t),
    decreases *t,
{
    match t {
        Type::Bool => Type::Bool,
        Type::Double => Type::Double,
        Type::Float => Type::Float,
        Type::Int16 => Type::Int16,
        Type::Int32 => Type::Int32,
        Type::Int64 => Type::Int64,
        Type::Int8 => Type::Int8,
        Type::String => Type::String,
        Type::Uint16 => Type::Uint16,
        Type::Uint32 => Type::Uint32,
        Type::Uint64 => Type::Uint64,
        Type::Uint8 => Type::Uint8,
        Type::Array(b) => Type::Array(Box::new(clone_type(&**b))),
        Type::Table(s) => Type::Table(s.clone()),
        Type::Variant(a) => Type::Variant(clone_types(a)),
        Type::Tuple(a) => Type::Tuple(clone_types(a)),
        Type::PrototypeReference(s) => Type::PrototypeReference(s.clone()),
        Type::PrototypeReference2(a) => Type::PrototypeReference2(clone_names(a)),
        Type::PrototypeReferenceBase(s) => Type::PrototypeReferenceBase(s.clone()),
        Type::StringLiteral(s) => Type::StringLiteral(s.clone()),
        Type::TableWithOverrides(s, m) => Type::TableWithOverrides(s.clone(), clone_fields(m)),
    }
}

/// A deep copy of a vector of types.
pub fn clone_types(a: &Vec<Type>) -> (r: Vec<Type>)
    ensures
        types_dv(r@) == types_dv(a@),
    decreases *a,
{
    let mut out: Vec<Type> = Vec::new();
    let mut i: usize = 0;
    while i < a.len()
        invariant
            i <= a@.len(),
            out@.len() == i,
            forall|j: int| 0 <= j < i ==> type_dv(out@[j]) == type_dv(a@[j]),
        decreases a@.len() - i,
    {
        proof {
            assert(decreases_to!(*a => a@[i as int]));
        }
        out.push(clone_type(&a[i]));
        i = i + 1;
    }
    proof {
        lemma_types_dv(out@);
        lemma_types_dv(a@);
        assert(types_dv(out@) =~= types_dv(a@));
    }
    out
}

/// A copy of a vector of names.
pub fn clone_names(a: &Vec<String>) -> (r: Vec<String>)
    ensures
        names_dv(r@) == names_dv(a@),
{
    let mut out: Vec<String> = Vec::new();
    let mut i: usize = 0;
    while i < a.len()
        invariant
            i <= a@.len(),
            out@.len() == i,
            forall|j: int| 0 <= j < i ==> out@[j]@ == a@[j]@,
        decreases a@.len() - i,
    {
        out.push(a[i].clone());
        i = i + 1;
    }
    proof {
        assert(names_dv(out@) =~= names_dv(a@));
    }
    out
}

} // verus!

//! The structured-value model the codec runs on: nested records and maps
//! with string keys, scalar leaves, and the shapes that direct decoding.

use vstd::prelude::*;

use crate::text::item_ok;

verus! {

broadcast use vstd::std_specs::vec::group_vec_axioms, vstd::seq::group_seq_axioms;

/// A value of the structural data model: what one document holds.
///
/// Records carry the declared name of their type (written at the top of a
/// document); maps do not. `Tag` is a unit-like enum variant, `Opt` a present
/// optional, and `Newtype` a single-field wrapper type with its declared name.
#[derive(Debug, PartialEq)]
pub enum Value {
    Bool(bool),
    I8(i8),
    I16(i16),
    I32(i32),
    I64(i64),
    U8(u8),
    U16(u16),
    U32(u32),
    U64(u64),
    Chr(char),
    Str(String),
    Tag(String),
    Opt(Box<Value>),
    Newtype(String, Box<Value>),
    Record(String, Vec<(String, Value)>),
    Dict(Vec<(String, Value)>),
}

/// The mathematical form of a [`Value`]: strings become character sequences
/// and entry lists become sequences of pairs.
pub enum ValueV {
    Bool(bool),
    I8(i8),
    I16(i16),
    I32(i32),
    I64(i64),
    U8(u8),
    U16(u16),
    U32(u32),
    U64(u64),
    Chr(char),
    Str(Seq<char>),
    Tag(Seq<char>),
    Opt(Box<ValueV>),
    Newtype(Seq<char>, Box<ValueV>),
    Record(Seq<char>, Seq<(Seq<char>, ValueV)>),
    Dict(Seq<(Seq<char>, ValueV)>),
}

/// The mathematical value a [`Value`] stands for.
pub open spec fn vview(v: Value) -> ValueV
    decreases v,
{
    match v {
        Value::Bool(b) => ValueV::Bool(b),
        Value::I8(n) => ValueV::I8(n),
        Value::I16(n) => ValueV::I16(n),
        Value::I32(n) => ValueV::I32(n),
        Value::I64(n) => ValueV::I64(n),
        Value::U8(n) => ValueV::U8(n),
        Value::U16(n) => ValueV::U16(n),
        Value::U32(n) => ValueV::U32(n),
        Value::U64(n) => ValueV::U64(n),
        Value::Chr(c) => ValueV::Chr(c),
        Value::Str(s) => ValueV::Str(s@),
        Value::Tag(s) => ValueV::Tag(s@),
        Value::Opt(b) => ValueV::Opt(Box::new(vview(*b))),
        Value::Newtype(n, b) => ValueV::Newtype(n@, Box::new(vview(*b))),
        Value::Record(n, es) => ValueV::Record(n@, ventries(es@)),
        Value::Dict(es) => ValueV::Dict(ventries(es@)),
    }
}

/// The views of an entry list, key and value alike.
pub open spec fn ventries(es: Seq<(String, Value)>) -> Seq<(Seq<char>, ValueV)>
    decreases es,
{
    if es.len() == 0 {
        Seq::empty()
    } else {
        seq![(es[0].0@, vview(es[0].1))] + ventries(es.subrange(1, es.len() as int))
    }
}

/// What each position of [`ventries`] holds.
pub proof fn lemma_ventries(es: Seq<(String, Value)>)
    ensures
        ventries(es).len() == es.len(),
        forall|i: int|
            0 <= i < es.len() ==> #[trigger] ventries(es)[i] == (es[i].0@, vview(es[i].1)),
    decreases es,
{
    if es.len() > 0 {
        lemma_ventries(es.subrange(1, es.len() as int));
    }
}

/// The shape a decode call is directed by: which scalar to parse, which
/// variant names an enum admits, which fields a record declares.
#[derive(Debug, PartialEq)]
pub enum Shape {
    Bool,
    I8,
    I16,
    I32,
    I64,
    U8,
    U16,
    U32,
    U64,
    Chr,
    Str,
    Tag(Vec<String>),
    Opt(Box<Shape>),
    Newtype(String, Box<Shape>),
    Record(String, Vec<(String, Shape)>),
    Dict(Box<Shape>),
}

/// The mathematical form of a [`Shape`].
pub enum ShapeV {
    Bool,
    I8,
    I16,
    I32,
    I64,
    U8,
    U16,
    U32,
    U64,
    Chr,
    Str,
    Tag(Seq<Seq<char>>),
    Opt(Box<ShapeV>),
    Newtype(Seq<char>, Box<ShapeV>),
    Record(Seq<char>, Seq<(Seq<char>, ShapeV)>),
    Dict(Box<ShapeV>),
}

/// The mathematical shape a [`Shape`] stands for.
pub open spec fn sview(s: Shape) -> ShapeV
    decreases s,
{
    match s {
        Shape::Bool => ShapeV::Bool,
        Shape::I8 => ShapeV::I8,
        Shape::I16 => ShapeV::I16,
        Shape::I32 => ShapeV::I32,
        Shape::I64 => ShapeV::I64,
        Shape::U8 => ShapeV::U8,
        Shape::U16 => ShapeV::U16,
        Shape::U32 => ShapeV::U32,
        Shape::U64 => ShapeV::U64,
        Shape::Chr => ShapeV::Chr,
        Shape::Str => ShapeV::Str,
        Shape::Tag(ns) => ShapeV::Tag(Seq::new(ns@.len(), |i: int| ns@[i]@)),
        Shape::Opt(b) => ShapeV::Opt(Box::new(sview(*b))),
        Shape::Newtype(n, b) => ShapeV::Newtype(n@, Box::new(sview(*b))),
        Shape::Record(n, fs) => ShapeV::Record(n@, sfields(fs@)),
        Shape::Dict(b) => ShapeV::Dict(Box::new(sview(*b))),
    }
}

/// The views of a declared field list.
pub open spec fn sfields(fs: Seq<(String, Shape)>) -> Seq<(Seq<char>, ShapeV)>
    decreases fs,
{
    if fs.len() == 0 {
        Seq::empty()
    } else {
        seq![(fs[0].0@, sview(fs[0].1))] + sfields(fs.subrange(1, fs.len() as int))
    }
}

/// What each position of [`sfields`] holds.
pub proof fn lemma_sfields(fs: Seq<(String, Shape)>)
    ensures
        sfields(fs).len() == fs.len(),
        forall|i: int| 0 <= i < fs.len() ==> #[trigger] sfields(fs)[i] == (fs[i].0@, sview(fs[i].1)),
    decreases fs,
{
    if fs.len() > 0 {
        lemma_sfields(fs.subrange(1, fs.len() as int));
    }
}

/// The shape of the first field in `fields` named `k`, if any.
pub open spec fn lookup_field(fields: Seq<(Seq<char>, ShapeV)>, k: Seq<char>) -> Option<ShapeV>
    decreases fields.len(),
{
    if fields.len() == 0 {
        Option::None
    } else if fields[0].0 == k {
        Option::Some(fields[0].1)
    } else {
        lookup_field(fields.drop_first(), k)
    }
}

/// The value `v` has shape `s`: each scalar matches its scalar shape, a tag
/// is one of the declared variant names, and every record entry's key is a
/// declared field whose shape its value has in turn.
pub open spec fn fits(v: ValueV, s: ShapeV) -> bool
    decreases v,
{
    match v {
        ValueV::Bool(_) => s is Bool,
        ValueV::I8(_) => s is I8,
        ValueV::I16(_) => s is I16,
        ValueV::I32(_) => s is I32,
        ValueV::I64(_) => s is I64,
        ValueV::U8(_) => s is U8,
        ValueV::U16(_) => s is U16,
        ValueV::U32(_) => s is U32,
        ValueV::U64(_) => s is U64,
        ValueV::Chr(_) => s is Chr,
        ValueV::Str(_) => s is Str,
        ValueV::Tag(t) => s matches ShapeV::Tag(ns) && (exists|i: int|
            0 <= i < ns.len() && #[trigger] ns[i] == t),
        ValueV::Opt(x) => s matches ShapeV::Opt(inner) && fits(*x, *inner),
        ValueV::Newtype(n, x) => s matches ShapeV::Newtype(n2, inner) && n == n2 && fits(
            *x,
            *inner,
        ),
        ValueV::Record(n, es) => s matches ShapeV::Record(n2, fields) && n == n2 && (forall|i: int|
            0 <= i < es.len() ==> ((#[trigger] lookup_field(fields, es[i].0)) matches Option::Some(
                fs,
            ) && fits(es[i].1, fs))),
        ValueV::Dict(es) => s matches ShapeV::Dict(inner) && (forall|i: int|
            0 <= i < es.len() ==> fits(#[trigger] es[i].1, *inner)),
    }
}

/// Every item text the encoding of `v` writes survives the tokenizer: keys,
/// strings, characters, tags and record names all satisfy [`item_ok`], and a
/// record's name contains nothing that escaping would change, since it is
/// written verbatim.
pub open spec fn encodable(v: ValueV) -> bool
    decreases v,
{
    match v {
        ValueV::Bool(_) => true,
        ValueV::I8(_) => true,
        ValueV::I16(_) => true,
        ValueV::I32(_) => true,
        ValueV::I64(_) => true,
        ValueV::U8(_) => true,
        ValueV::U16(_) => true,
        ValueV::U32(_) => true,
        ValueV::U64(_) => true,
        ValueV::Chr(c) => item_ok(seq![c]),
        ValueV::Str(s) => item_ok(s),
        ValueV::Tag(t) => item_ok(t),
        ValueV::Opt(x) => encodable(*x),
        ValueV::Newtype(_, x) => encodable(*x),
        ValueV::Record(n, es) => plain_name(n) && (forall|i: int|
            0 <= i < es.len() ==> item_ok(#[trigger] es[i].0) && encodable(es[i].1)),
        ValueV::Dict(es) => forall|i: int|
            0 <= i < es.len() ==> item_ok(#[trigger] es[i].0) && encodable(es[i].1),
    }
}

/// A record name that is written verbatim and read back unchanged: it
/// survives the tokenizer and escaping leaves every character alone.
pub open spec fn plain_name(n: Seq<char>) -> bool {
    item_ok(n) && forall|i: int|
        0 <= i < n.len() ==> #[trigger] n[i] != '\\' && n[i] != '\n' && n[i] != '"'
}

/// `v` holds no record or wrapper type anywhere, so decoding it never
/// consults the top-level-name flag.
pub open spec fn flag_free(v: ValueV) -> bool
    decreases v,
{
    match v {
        ValueV::Opt(x) => flag_free(*x),
        ValueV::Newtype(_, _) => false,
        ValueV::Record(_, _) => false,
        ValueV::Dict(es) => forall|i: int| 0 <= i < es.len() ==> flag_free(#[trigger] es[i].1),
        _ => true,
    }
}

/// The values whose documents decode with the top-level name handled the way
/// encoding wrote it: a record at the top consumes the name itself; anything
/// else must never reach a named aggregate with the flag still set.
pub open spec fn top_ok(v: ValueV) -> bool
    decreases v,
{
    match v {
        ValueV::Record(_, _) => true,
        ValueV::Opt(x) => top_ok(*x),
        _ => flag_free(v),
    }
}

/// The group-nesting depth of `v` is at most `k`: how far the encoder's
/// indent level can rise while writing it. A machine limit, since the indent
/// level is held in a `usize`.
pub open spec fn depth_le(v: ValueV, k: int) -> bool
    decreases v,
{
    match v {
        ValueV::Opt(x) => depth_le(*x, k),
        ValueV::Newtype(_, x) => depth_le(*x, k),
        ValueV::Record(_, es) => k >= 1 && (forall|i: int|
            0 <= i < es.len() ==> depth_le(#[trigger] es[i].1, k - 1)),
        ValueV::Dict(es) => k >= 1 && (forall|i: int|
            0 <= i < es.len() ==> depth_le(#[trigger] es[i].1, k - 1)),
        _ => true,
    }
}





/// A structural size for the value model, the decreasing measure of the
/// recursive walks: every proper component is strictly smaller.
pub open spec fn vsize(v: ValueV) -> nat
    decreases v,
{
    match v {
        ValueV::Opt(x) => 1 + vsize(*x),
        ValueV::Newtype(_, x) => 1 + vsize(*x),
        ValueV::Record(_, es) => 1 + esize(es),
        ValueV::Dict(es) => 1 + esize(es),
        _ => 1,
    }
}

pub open spec fn esize(es: Seq<(Seq<char>, ValueV)>) -> nat
    decreases es,
{
    if es.len() == 0 {
        0
    } else {
        1 + vsize(es[0].1) + esize(es.subrange(1, es.len() as int))
    }
}

/// Each entry's value is strictly smaller than the whole entry list.
pub proof fn lemma_esize_elem(es: Seq<(Seq<char>, ValueV)>, i: int)
    requires
        0 <= i < es.len(),
    ensures
        vsize(es[i].1) < 1 + esize(es),
    decreases es.len(),
{
    if i == 0 {
    } else {
        assert(es.subrange(1, es.len() as int)[i - 1] == es[i]);
        lemma_esize_elem(es.subrange(1, es.len() as int), i - 1);
    }
}

} // verus!

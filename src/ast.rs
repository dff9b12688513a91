//! The tree of serializer calls, and its mathematical model.
use vstd::prelude::*;

verus! {

/// A type that has no values: an [`Ast`] can hold no extension node.
///
/// Its private field has no constructor and its invariant is `false`, so no
/// value of it is ever built.
#[derive(Debug, Clone, Copy, PartialEq, PartialOrd, Eq, Ord, Hash)]
pub struct Final {
    never: (),
}

impl Final {
    /// The invariant of `Final`, which no value meets.
    #[verifier::type_invariant]
    pub open spec fn uninhabited(&self) -> bool {
        false
    }
}

/// The closed tree, without any extension.
pub type Ast = XAst<Final>;

/// The calls made to a serializer, as a tree; `X` is an extension node kind.
///
/// Floating-point scalars are held as their IEEE 754 bit patterns.
#[derive(Debug, PartialEq)]
pub enum XAst<X> {
    Bool(bool),
    I8(i8),
    I16(i16),
    I32(i32),
    I64(i64),
    U8(u8),
    U16(u16),
    U32(u32),
    U64(u64),
    F32(u32),
    F64(u64),
    Char(char),
    Str(String),
    Bytes(Vec<u8>),
    /// An absent optional value.
    OptionNone,
    /// A present optional value.
    OptionSome(Box<XAst<X>>),
    Unit,
    UnitStruct(String),
    UnitVariant { name: String, variant_index: u32, variant: String },
    NewtypeStruct { name: String, value: Box<XAst<X>> },
    NewtypeVariant { name: String, variant_index: u32, variant: String, value: Box<XAst<X>> },
    /// A sequence, with its length hint.
    Sequence { len: Option<usize>, ops: Vec<SeqOp<X>> },
    Tuple { len: usize, ops: Vec<Tuple<X>> },
    TupleStruct { name: String, len: usize, ops: Vec<TupleStruct<X>> },
    TupleVariant {
        name: String,
        variant_index: u32,
        variant: String,
        len: usize,
        ops: Vec<TupleVariant<X>>,
    },
    /// A map, with its length hint.
    Mapping { len: Option<usize>, ops: Vec<MapOp<X>> },
    Struct { name: String, len: usize, ops: Vec<Struct<X>> },
    StructVariant {
        name: String,
        variant_index: u32,
        variant: String,
        len: usize,
        ops: Vec<StructVariant<X>>,
    },
    /// An extension node.
    X(X),
}

/// An operation inside a tuple.
#[derive(Debug, PartialEq)]
pub enum Tuple<X> {
    Element { value: Box<XAst<X>> },
}

/// An operation inside a tuple struct.
#[derive(Debug, PartialEq)]
pub enum TupleStruct<X> {
    Field { value: Box<XAst<X>> },
}

/// An operation inside a tuple variant.
#[derive(Debug, PartialEq)]
pub enum TupleVariant<X> {
    Field { value: Box<XAst<X>> },
}

/// An operation inside a sequence.
#[derive(Debug, PartialEq)]
pub enum SeqOp<X> {
    Element { value: Box<XAst<X>> },
}

/// An operation inside a map: keys and values, in the order they came.
#[derive(Debug, PartialEq)]
pub enum MapOp<X> {
    Key { key: Box<XAst<X>> },
    Value { value: Box<XAst<X>> },
}

/// An operation inside a struct: a field, or a field left out.
#[derive(Debug, PartialEq)]
pub enum Struct<X> {
    Field { key: String, value: Box<XAst<X>> },
    Skip { key: String },
}

/// An operation inside a struct variant: a field, or a field left out.
#[derive(Debug, PartialEq)]
pub enum StructVariant<X> {
    Field { key: String, value: Box<XAst<X>> },
    Skip { key: String },
}

/// The mathematical model of a tree node.
///
/// The four kinds of aggregate whose operations each carry one value share
/// the shape `Seq<Node>`; map and struct operations have their own models.
pub enum Node {
    Bool(bool),
    I8(i8),
    I16(i16),
    I32(i32),
    I64(i64),
    U8(u8),
    U16(u16),
    U32(u32),
    U64(u64),
    F32(u32),
    F64(u64),
    Char(char),
    Str(Seq<char>),
    Bytes(Seq<u8>),
    OptionNone,
    OptionSome(Box<Node>),
    Unit,
    UnitStruct(Seq<char>),
    UnitVariant { name: Seq<char>, variant_index: u32, variant: Seq<char> },
    NewtypeStruct { name: Seq<char>, value: Box<Node> },
    NewtypeVariant { name: Seq<char>, variant_index: u32, variant: Seq<char>, value: Box<Node> },
    Sequence { len: Option<usize>, elements: Seq<Node> },
    Tuple { len: usize, elements: Seq<Node> },
    TupleStruct { name: Seq<char>, len: usize, fields: Seq<Node> },
    TupleVariant {
        name: Seq<char>,
        variant_index: u32,
        variant: Seq<char>,
        len: usize,
        fields: Seq<Node>,
    },
    Mapping { len: Option<usize>, entries: Seq<Entry> },
    Struct { name: Seq<char>, len: usize, members: Seq<Member> },
    StructVariant {
        name: Seq<char>,
        variant_index: u32,
        variant: Seq<char>,
        len: usize,
        members: Seq<Member>,
    },
    /// Stands for any extension node.
    Extension,
}

/// The model of a map operation.
pub enum Entry {
    Key(Node),
    Value(Node),
}

/// The model of a struct operation.
pub enum Member {
    Field(Seq<char>, Node),
    Skip(Seq<char>),
}

/// The node holds no extension anywhere.
pub open spec fn closed(n: Node) -> bool
    decreases n,
{
    match n {
        Node::OptionSome(v) => closed(*v),
        Node::NewtypeStruct { value, .. } => closed(*value),
        Node::NewtypeVariant { value, .. } => closed(*value),
        Node::Sequence { elements, .. } => all_closed(elements),
        Node::Tuple { elements, .. } => all_closed(elements),
        Node::TupleStruct { fields, .. } => all_closed(fields),
        Node::TupleVariant { fields, .. } => all_closed(fields),
        Node::Mapping { entries, .. } => entries_closed(entries),
        Node::Struct { members, .. } => members_closed(members),
        Node::StructVariant { members, .. } => members_closed(members),
        Node::Extension => false,
        _ => true,
    }
}

/// Every node of the list is closed.
pub open spec fn all_closed(ns: Seq<Node>) -> bool
    decreases ns,
{
    ns.len() == 0 || (all_closed(ns.subrange(0, ns.len() - 1)) && closed(ns.last()))
}

/// Every key and value of the list is closed.
pub open spec fn entries_closed(es: Seq<Entry>) -> bool
    decreases es,
{
    es.len() == 0 || (entries_closed(es.subrange(0, es.len() - 1)) && match es.last() {
        Entry::Key(k) => closed(k),
        Entry::Value(v) => closed(v),
    })
}

/// Every field value of the list is closed.
pub open spec fn members_closed(ms: Seq<Member>) -> bool
    decreases ms,
{
    ms.len() == 0 || (members_closed(ms.subrange(0, ms.len() - 1)) && match ms.last() {
        Member::Field(_, v) => closed(v),
        Member::Skip(_) => true,
    })
}

/// The model of the values that a list of `Tuple` operations carries.
pub open spec fn tuple_ops_view<X>(ops: Seq<Tuple<X>>) -> Seq<Node>
    decreases ops,
{
    if ops.len() == 0 {
        Seq::empty()
    } else {
        tuple_ops_view(ops.subrange(0, ops.len() - 1)).push(ast_view(*ops.last()->Element_value))
    }
}

/// The model of the values that a list of `TupleStruct` operations carries.
pub open spec fn tuple_struct_ops_view<X>(ops: Seq<TupleStruct<X>>) -> Seq<Node>
    decreases ops,
{
    if ops.len() == 0 {
        Seq::empty()
    } else {
        let value = ast_view(*ops.last()->Field_value);
        tuple_struct_ops_view(ops.subrange(0, ops.len() - 1)).push(value)
    }
}

/// The model of the values that a list of `TupleVariant` operations carries.
pub open spec fn tuple_variant_ops_view<X>(ops: Seq<TupleVariant<X>>) -> Seq<Node>
    decreases ops,
{
    if ops.len() == 0 {
        Seq::empty()
    } else {
        let value = ast_view(*ops.last()->Field_value);
        tuple_variant_ops_view(ops.subrange(0, ops.len() - 1)).push(value)
    }
}

/// The model of the values that a list of `SeqOp` operations carries.
pub open spec fn seq_ops_view<X>(ops: Seq<SeqOp<X>>) -> Seq<Node>
    decreases ops,
{
    if ops.len() == 0 {
        Seq::empty()
    } else {
        seq_ops_view(ops.subrange(0, ops.len() - 1)).push(ast_view(*ops.last()->Element_value))
    }
}

/// The model of a list of map operations.
pub open spec fn map_ops_view<X>(ops: Seq<MapOp<X>>) -> Seq<Entry>
    decreases ops,
{
    if ops.len() == 0 {
        Seq::empty()
    } else {
        let last = match ops.last() {
            MapOp::Key { key } => Entry::Key(ast_view(*key)),
            MapOp::Value { value } => Entry::Value(ast_view(*value)),
        };
        map_ops_view(ops.subrange(0, ops.len() - 1)).push(last)
    }
}

/// The model of a list of struct operations.
pub open spec fn struct_ops_view<X>(ops: Seq<Struct<X>>) -> Seq<Member>
    decreases ops,
{
    if ops.len() == 0 {
        Seq::empty()
    } else {
        let last = match ops.last() {
            Struct::Field { key, value } => Member::Field(key@, ast_view(*value)),
            Struct::Skip { key } => Member::Skip(key@),
        };
        struct_ops_view(ops.subrange(0, ops.len() - 1)).push(last)
    }
}

/// The model of a list of struct variant operations.
pub open spec fn struct_variant_ops_view<X>(ops: Seq<StructVariant<X>>) -> Seq<Member>
    decreases ops,
{
    if ops.len() == 0 {
        Seq::empty()
    } else {
        let last = match ops.last() {
            StructVariant::Field { key, value } => Member::Field(key@, ast_view(*value)),
            StructVariant::Skip { key } => Member::Skip(key@),
        };
        struct_variant_ops_view(ops.subrange(0, ops.len() - 1)).push(last)
    }
}

/// The model of a tree.
pub open spec fn ast_view<X>(a: XAst<X>) -> Node
    decreases a,
{
    match a {
        XAst::Bool(v) => Node::Bool(v),
        XAst::I8(v) => Node::I8(v),
        XAst::I16(v) => Node::I16(v),
        XAst::I32(v) => Node::I32(v),
        XAst::I64(v) => Node::I64(v),
        XAst::U8(v) => Node::U8(v),
        XAst::U16(v) => Node::U16(v),
        XAst::U32(v) => Node::U32(v),
        XAst::U64(v) => Node::U64(v),
        XAst::F32(v) => Node::F32(v),
        XAst::F64(v) => Node::F64(v),
        XAst::Char(v) => Node::Char(v),
        XAst::Str(v) => Node::Str(v@),
        XAst::Bytes(v) => Node::Bytes(v@),
        XAst::OptionNone => Node::OptionNone,
        XAst::OptionSome(v) => Node::OptionSome(Box::new(ast_view(*v))),
        XAst::Unit => Node::Unit,
        XAst::UnitStruct(name) => Node::UnitStruct(name@),
        XAst::UnitVariant { name, variant_index, variant } => Node::UnitVariant {
            name: name@,
            variant_index,
            variant: variant@,
        },
        XAst::NewtypeStruct { name, value } => Node::NewtypeStruct {
            name: name@,
            value: Box::new(ast_view(*value)),
        },
        XAst::NewtypeVariant { name, variant_index, variant, value } => Node::NewtypeVariant {
            name: name@,
            variant_index,
            variant: variant@,
            value: Box::new(ast_view(*value)),
        },
        XAst::Sequence { len, ops } => Node::Sequence { len, elements: seq_ops_view(ops@) },
        XAst::Tuple { len, ops } => Node::Tuple { len, elements: tuple_ops_view(ops@) },
        XAst::TupleStruct { name, len, ops } => Node::TupleStruct {
            name: name@,
            len,
            fields: tuple_struct_ops_view(ops@),
        },
        XAst::TupleVariant { name, variant_index, variant, len, ops } => Node::TupleVariant {
            name: name@,
            variant_index,
            variant: variant@,
            len,
            fields: tuple_variant_ops_view(ops@),
        },
        XAst::Mapping { len, ops } => Node::Mapping { len, entries: map_ops_view(ops@) },
        XAst::Struct { name, len, ops } => Node::Struct {
            name: name@,
            len,
            members: struct_ops_view(ops@),
        },
        XAst::StructVariant { name, variant_index, variant, len, ops } => Node::StructVariant {
            name: name@,
            variant_index,
            variant: variant@,
            len,
            members: struct_variant_ops_view(ops@),
        },
        XAst::X(_) => Node::Extension,
    }
}

impl<X> View for XAst<X> {
    type V = Node;

    open spec fn view(&self) -> Node {
        ast_view(*self)
    }
}

} // verus!

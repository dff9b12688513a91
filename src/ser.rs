//! Capture: building the tree from the calls a value makes, one call at a time.
//!
//! Every call that carries a nested value takes the result of capturing that
//! value; a failed nested capture fails the call and leaves the accumulator
//! as it was.
use crate::ast::{
    Ast, Entry, Final, MapOp, Member, Node, SeqOp, Struct, StructVariant, Tuple, TupleStruct,
    TupleVariant, XAst, map_ops_view, seq_ops_view, struct_ops_view,
    struct_variant_ops_view, tuple_ops_view, tuple_struct_ops_view, tuple_variant_ops_view,
};
use vstd::prelude::*;

verus! {

/// The one kind of failure: a free-form message.
#[derive(Debug, Clone, PartialEq)]
pub enum Error {
    Custom(String),
}

impl Error {
    /// Builds the error that carries `msg`.
    pub fn custom(msg: String) -> (e: Error)
        ensures
            e == Error::Custom(msg),
    {
        Error::Custom(msg)
    }

    /// The message that the error carries.
    pub fn message(&self) -> (r: &String)
        ensures
            *self == Error::Custom(*r),
    {
        match self {
            Error::Custom(m) => m,
        }
    }
}

/// The capturing serializer: each scalar call yields its leaf node, and each
/// aggregate call yields an accumulator.
pub struct Serializer {}

impl Serializer {
    /// A new serializer.
    pub fn new() -> (s: Self) {
        Serializer {}
    }

    /// Captures a `bool`.
    pub fn serialize_bool(self, v: bool) -> (r: Result<Ast, Error>)
        ensures
            r matches Ok(a) && a@ == Node::Bool(v),
    {
        Ok(XAst::Bool(v))
    }

    /// Captures an `i8`.
    pub fn serialize_i8(self, v: i8) -> (r: Result<Ast, Error>)
        ensures
            r matches Ok(a) && a@ == Node::I8(v),
    {
        Ok(XAst::I8(v))
    }

    /// Captures an `i16`.
    pub fn serialize_i16(self, v: i16) -> (r: Result<Ast, Error>)
        ensures
            r matches Ok(a) && a@ == Node::I16(v),
    {
        Ok(XAst::I16(v))
    }

    /// Captures an `i32`.
    pub fn serialize_i32(self, v: i32) -> (r: Result<Ast, Error>)
        ensures
            r matches Ok(a) && a@ == Node::I32(v),
    {
        Ok(XAst::I32(v))
    }

    /// Captures an `i64`.
    pub fn serialize_i64(self, v: i64) -> (r: Result<Ast, Error>)
        ensures
            r matches Ok(a) && a@ == Node::I64(v),
    {
        Ok(XAst::I64(v))
    }

    /// Captures a `u8`.
    pub fn serialize_u8(self, v: u8) -> (r: Result<Ast, Error>)
        ensures
            r matches Ok(a) && a@ == Node::U8(v),
    {
        Ok(XAst::U8(v))
    }

    /// Captures a `u16`.
    pub fn serialize_u16(self, v: u16) -> (r: Result<Ast, Error>)
        ensures
            r matches Ok(a) && a@ == Node::U16(v),
    {
        Ok(XAst::U16(v))
    }

    /// Captures a `u32`.
    pub fn serialize_u32(self, v: u32) -> (r: Result<Ast, Error>)
        ensures
            r matches Ok(a) && a@ == Node::U32(v),
    {
        Ok(XAst::U32(v))
    }

    /// Captures a `u64`.
    pub fn serialize_u64(self, v: u64) -> (r: Result<Ast, Error>)
        ensures
            r matches Ok(a) && a@ == Node::U64(v),
    {
        Ok(XAst::U64(v))
    }

    /// Captures a `char`.
    pub fn serialize_char(self, v: char) -> (r: Result<Ast, Error>)
        ensures
            r matches Ok(a) && a@ == Node::Char(v),
    {
        Ok(XAst::Char(v))
    }

    /// Captures an `f32`, given as its bit pattern.
    pub fn serialize_f32(self, bits: u32) -> (r: Result<Ast, Error>)
        ensures
            r matches Ok(a) && a@ == Node::F32(bits),
    {
        Ok(XAst::F32(bits))
    }

    /// Captures an `f64`, given as its bit pattern.
    pub fn serialize_f64(self, bits: u64) -> (r: Result<Ast, Error>)
        ensures
            r matches Ok(a) && a@ == Node::F64(bits),
    {
        Ok(XAst::F64(bits))
    }

    /// Captures a string.
    pub fn serialize_str(self, v: &str) -> (r: Result<Ast, Error>)
        ensures
            r matches Ok(a) && a@ == Node::Str(v@),
    {
        Ok(XAst::Str(v.to_owned()))
    }

    /// Captures a byte string.
    pub fn serialize_bytes(self, v: &[u8]) -> (r: Result<Ast, Error>)
        ensures
            r matches Ok(a) && a@ == Node::Bytes(v@),
    {
        Ok(XAst::Bytes(vstd::slice::slice_to_vec(v)))
    }

    /// Captures an absent optional value.
    pub fn serialize_none(self) -> (r: Result<Ast, Error>)
        ensures
            r matches Ok(a) && a@ == Node::OptionNone,
    {
        Ok(XAst::OptionNone)
    }

    /// Captures a present optional value, from the capture of the value it holds.
    pub fn serialize_some(self, value: Result<Ast, Error>) -> (r: Result<Ast, Error>)
        ensures
            match value {
                Ok(v) => r matches Ok(a) && a@ == Node::OptionSome(Box::new(v@)),
                Err(e) => r == Err::<Ast, Error>(e),
            },
    {
        match value {
            Ok(v) => Ok(XAst::OptionSome(Box::new(v))),
            Err(e) => Err(e),
        }
    }

    /// Captures a unit.
    pub fn serialize_unit(self) -> (r: Result<Ast, Error>)
        ensures
            r matches Ok(a) && a@ == Node::Unit,
    {
        Ok(XAst::Unit)
    }

    /// Captures a unit struct.
    pub fn serialize_unit_struct(self, name: String) -> (r: Result<Ast, Error>)
        ensures
            r matches Ok(a) && a@ == Node::UnitStruct(name@),
    {
        Ok(XAst::UnitStruct(name))
    }

    /// Captures a unit variant.
    pub fn serialize_unit_variant(
        self,
        name: String,
        variant_index: u32,
        variant: String,
    ) -> (r: Result<Ast, Error>)
        ensures
            r matches Ok(a)
                && a@ == (Node::UnitVariant { name: name@, variant_index, variant: variant@ }),
    {
        Ok(XAst::UnitVariant { name, variant_index, variant })
    }

    /// Captures a newtype struct, from the capture of the value it wraps.
    pub fn serialize_newtype_struct(
        self,
        name: String,
        value: Result<Ast,
        Error>,
    ) -> (r: Result<Ast, Error>)
        ensures
            match value {
                Ok(v) => r matches Ok(a) && a@ == (Node::NewtypeStruct {
                    name: name@,
                    value: Box::new(v@),
                }),
                Err(e) => r == Err::<Ast, Error>(e),
            },
    {
        match value {
            Ok(v) => Ok(XAst::NewtypeStruct { name, value: Box::new(v) }),
            Err(e) => Err(e),
        }
    }

    /// Captures a newtype variant, from the capture of the value it wraps.
    pub fn serialize_newtype_variant(
        self,
        name: String,
        variant_index: u32,
        variant: String,
        value: Result<Ast, Error>,
    ) -> (r: Result<Ast, Error>)
        ensures
            match value {
                Ok(v) => r matches Ok(a) && a@ == (Node::NewtypeVariant {
                    name: name@,
                    variant_index,
                    variant: variant@,
                    value: Box::new(v@),
                }),
                Err(e) => r == Err::<Ast, Error>(e),
            },
    {
        match value {
            Ok(v) => Ok(XAst::NewtypeVariant { name, variant_index, variant, value: Box::new(v) }),
            Err(e) => Err(e),
        }
    }

    /// Opens a sequence.
    pub fn serialize_seq(self, len: Option<usize>) -> (r: Result<SerializeSeq, Error>)
        ensures
            r matches Ok(s) && s@ == (len, Seq::<Node>::empty()),
    {
        Ok(SerializeSeq::new(len))
    }

    /// Opens a tuple.
    pub fn serialize_tuple(self, len: usize) -> (r: Result<SerializeTuple, Error>)
        ensures
            r matches Ok(s) && s@ == (len, Seq::<Node>::empty()),
    {
        Ok(SerializeTuple::new(len))
    }

    /// Opens a tuple struct.
    pub fn serialize_tuple_struct(
        self,
        name: String,
        len: usize,
    ) -> (r: Result<SerializeTupleStruct, Error>)
        ensures
            r matches Ok(s) && s@ == (name@, len, Seq::<Node>::empty()),
    {
        Ok(SerializeTupleStruct::new(name, len))
    }

    /// Opens a tuple variant.
    pub fn serialize_tuple_variant(
        self,
        name: String,
        variant_index: u32,
        variant: String,
        len: usize,
    ) -> (r: Result<SerializeTupleVariant, Error>)
        ensures
            r matches Ok(s) && s@ == (name@, variant_index, variant@, len, Seq::<Node>::empty()),
    {
        Ok(SerializeTupleVariant::new(name, variant_index, variant, len))
    }

    /// Opens a map.
    pub fn serialize_map(self, len: Option<usize>) -> (r: Result<SerializeMap, Error>)
        ensures
            r matches Ok(s) && s@ == (len, Seq::<Entry>::empty()),
    {
        Ok(SerializeMap::new(len))
    }

    /// Opens a struct.
    pub fn serialize_struct(self, name: String, len: usize) -> (r: Result<SerializeStruct, Error>)
        ensures
            r matches Ok(s) && s@ == (name@, len, Seq::<Member>::empty()),
    {
        Ok(SerializeStruct::new(name, len))
    }

    /// Opens a struct variant.
    pub fn serialize_struct_variant(
        self,
        name: String,
        variant_index: u32,
        variant: String,
        len: usize,
    ) -> (r: Result<SerializeStructVariant, Error>)
        ensures
            r matches Ok(s) && s@ == (name@, variant_index, variant@, len, Seq::<Member>::empty()),
    {
        Ok(SerializeStructVariant::new(name, variant_index, variant, len))
    }
}

/// The accumulator of a sequence.
pub struct SerializeSeq {
    len: Option<usize>,
    inner_ops: Vec<SeqOp<Final>>,
}

impl View for SerializeSeq {
    type V = (Option<usize>, Seq<Node>);

    closed spec fn view(&self) -> (Option<usize>, Seq<Node>) {
        (self.len, seq_ops_view(self.inner_ops@))
    }
}

impl SerializeSeq {
    /// An accumulator with no operations yet.
    pub fn new(len: Option<usize>) -> (s: Self)
        ensures
            s@ == (len, Seq::<Node>::empty()),
    {
        SerializeSeq { len, inner_ops: Vec::new() }
    }

    /// Adds an element, from the capture of its value.
    pub fn serialize_element(&mut self, value: Result<Ast, Error>) -> (r: Result<(), Error>)
        ensures
            match value {
                Ok(v) => r is Ok && final(self)@ == (old(self)@.0, old(self)@.1.push(v@)),
                Err(e) => r == Err::<(), Error>(e) && final(self)@ == old(self)@,
            },
    {
        match value {
            Ok(v) => {
                let ghost before = self.inner_ops@;
                self.inner_ops.push(SeqOp::Element { value: Box::new(v) });
                assert(self.inner_ops@.subrange(0, self.inner_ops@.len() - 1) =~= before);
                Ok(())
            },
            Err(e) => Err(e),
        }
    }

    /// Closes the sequence: its node holds the elements in the order they came.
    pub fn end(self) -> (r: Result<Ast, Error>)
        ensures
            r matches Ok(a) && a@ == (Node::Sequence { len: self@.0, elements: self@.1 }),
    {
        Ok(XAst::Sequence { len: self.len, ops: self.inner_ops })
    }
}


/// The accumulator of a tuple.
pub struct SerializeTuple {
    len: usize,
    inner_ops: Vec<Tuple<Final>>,
}

impl View for SerializeTuple {
    type V = (usize, Seq<Node>);

    closed spec fn view(&self) -> (usize, Seq<Node>) {
        (self.len, tuple_ops_view(self.inner_ops@))
    }
}

impl SerializeTuple {
    /// An accumulator with no operations yet.
    pub fn new(len: usize) -> (s: Self)
        ensures
            s@ == (len, Seq::<Node>::empty()),
    {
        SerializeTuple { len, inner_ops: Vec::new() }
    }

    /// Adds an element, from the capture of its value.
    pub fn serialize_element(&mut self, value: Result<Ast, Error>) -> (r: Result<(), Error>)
        ensures
            match value {
                Ok(v) => r is Ok && final(self)@ == (old(self)@.0, old(self)@.1.push(v@)),
                Err(e) => r == Err::<(), Error>(e) && final(self)@ == old(self)@,
            },
    {
        match value {
            Ok(v) => {
                let ghost before = self.inner_ops@;
                self.inner_ops.push(Tuple::Element { value: Box::new(v) });
                assert(self.inner_ops@.subrange(0, self.inner_ops@.len() - 1) =~= before);
                Ok(())
            },
            Err(e) => Err(e),
        }
    }

    /// Closes the tuple: its node holds the elements in the order they came.
    pub fn end(self) -> (r: Result<Ast, Error>)
        ensures
            r matches Ok(a) && a@ == (Node::Tuple { len: self@.0, elements: self@.1 }),
    {
        Ok(XAst::Tuple { len: self.len, ops: self.inner_ops })
    }
}

/// The accumulator of a tuple struct.
pub struct SerializeTupleStruct {
    name: String,
    len: usize,
    inner_ops: Vec<TupleStruct<Final>>,
}

impl View for SerializeTupleStruct {
    type V = (Seq<char>, usize, Seq<Node>);

    closed spec fn view(&self) -> (Seq<char>, usize, Seq<Node>) {
        (self.name@, self.len, tuple_struct_ops_view(self.inner_ops@))
    }
}

impl SerializeTupleStruct {
    /// An accumulator with no operations yet.
    pub fn new(name: String, len: usize) -> (s: Self)
        ensures
            s@ == (name@, len, Seq::<Node>::empty()),
    {
        SerializeTupleStruct { name, len, inner_ops: Vec::new() }
    }

    /// Adds a field, from the capture of its value.
    pub fn serialize_field(&mut self, value: Result<Ast, Error>) -> (r: Result<(), Error>)
        ensures
            match value {
                Ok(v) => r is Ok
                    && final(self)@ == (old(self)@.0, old(self)@.1, old(self)@.2.push(v@)),
                Err(e) => r == Err::<(), Error>(e) && final(self)@ == old(self)@,
            },
    {
        match value {
            Ok(v) => {
                let ghost before = self.inner_ops@;
                self.inner_ops.push(TupleStruct::Field { value: Box::new(v) });
                assert(self.inner_ops@.subrange(0, self.inner_ops@.len() - 1) =~= before);
                Ok(())
            },
            Err(e) => Err(e),
        }
    }

    /// Closes the tuple struct: its node holds the fields in the order they came.
    pub fn end(self) -> (r: Result<Ast, Error>)
        ensures
            r matches Ok(a)
                && a@ == (Node::TupleStruct { name: self@.0, len: self@.1, fields: self@.2 }),
    {
        Ok(XAst::TupleStruct { name: self.name, len: self.len, ops: self.inner_ops })
    }
}

/// The accumulator of a tuple variant.
pub struct SerializeTupleVariant {
    name: String,
    variant_index: u32,
    variant: String,
    len: usize,
    inner_ops: Vec<TupleVariant<Final>>,
}

impl View for SerializeTupleVariant {
    type V = (Seq<char>, u32, Seq<char>, usize, Seq<Node>);

    closed spec fn view(&self) -> (Seq<char>, u32, Seq<char>, usize, Seq<Node>) {
        (
            self.name@,
            self.variant_index,
            self.variant@,
            self.len,
            tuple_variant_ops_view(self.inner_ops@),
        )
    }
}

impl SerializeTupleVariant {
    /// An accumulator with no operations yet.
    pub fn new(name: String, variant_index: u32, variant: String, len: usize) -> (s: Self)
        ensures
            s@ == (name@, variant_index, variant@, len, Seq::<Node>::empty()),
    {
        SerializeTupleVariant { name, variant_index, variant, len, inner_ops: Vec::new() }
    }

    /// Adds a field, from the capture of its value.
    pub fn serialize_field(&mut self, value: Result<Ast, Error>) -> (r: Result<(), Error>)
        ensures
            match value {
                Ok(v) => r is Ok
                    && final(self)@
                        == (
                            old(self)@.0,
                            old(self)@.1,
                            old(self)@.2,
                            old(self)@.3,
                            old(self)@.4.push(v@),
                        ),
                Err(e) => r == Err::<(), Error>(e) && final(self)@ == old(self)@,
            },
    {
        match value {
            Ok(v) => {
                let ghost before = self.inner_ops@;
                self.inner_ops.push(TupleVariant::Field { value: Box::new(v) });
                assert(self.inner_ops@.subrange(0, self.inner_ops@.len() - 1) =~= before);
                Ok(())
            },
            Err(e) => Err(e),
        }
    }

    /// Closes the tuple variant: its node holds the fields in the order they came.
    pub fn end(self) -> (r: Result<Ast, Error>)
        ensures
            r matches Ok(a)
                && a@
                    == (Node::TupleVariant {
                        name: self@.0,
                        variant_index: self@.1,
                        variant: self@.2,
                        len: self@.3,
                        fields: self@.4,
                    }),
    {
        Ok(XAst::TupleVariant {
            name: self.name,
            variant_index: self.variant_index,
            variant: self.variant,
            len: self.len,
            ops: self.inner_ops,
        })
    }
}

/// The accumulator of a map.
pub struct SerializeMap {
    len: Option<usize>,
    inner_ops: Vec<MapOp<Final>>,
}

impl View for SerializeMap {
    type V = (Option<usize>, Seq<Entry>);

    closed spec fn view(&self) -> (Option<usize>, Seq<Entry>) {
        (self.len, map_ops_view(self.inner_ops@))
    }
}

impl SerializeMap {
    /// An accumulator with no operations yet.
    pub fn new(len: Option<usize>) -> (s: Self)
        ensures
            s@ == (len, Seq::<Entry>::empty()),
    {
        SerializeMap { len, inner_ops: Vec::new() }
    }

    /// Adds a key, from the capture of its value.
    pub fn serialize_key(&mut self, key: Result<Ast, Error>) -> (r: Result<(), Error>)
        ensures
            match key {
                Ok(k) => r is Ok
                    && final(self)@ == (old(self)@.0, old(self)@.1.push(Entry::Key(k@))),
                Err(e) => r == Err::<(), Error>(e) && final(self)@ == old(self)@,
            },
    {
        match key {
            Ok(k) => {
                let ghost before = self.inner_ops@;
                self.inner_ops.push(MapOp::Key { key: Box::new(k) });
                assert(self.inner_ops@.subrange(0, self.inner_ops@.len() - 1) =~= before);
                Ok(())
            },
            Err(e) => Err(e),
        }
    }

    /// Adds a value, from the capture of its value.
    pub fn serialize_value(&mut self, value: Result<Ast, Error>) -> (r: Result<(), Error>)
        ensures
            match value {
                Ok(v) => r is Ok
                    && final(self)@ == (old(self)@.0, old(self)@.1.push(Entry::Value(v@))),
                Err(e) => r == Err::<(), Error>(e) && final(self)@ == old(self)@,
            },
    {
        match value {
            Ok(v) => {
                let ghost before = self.inner_ops@;
                self.inner_ops.push(MapOp::Value { value: Box::new(v) });
                assert(self.inner_ops@.subrange(0, self.inner_ops@.len() - 1) =~= before);
                Ok(())
            },
            Err(e) => Err(e),
        }
    }

    /// Closes the map: its node holds keys and values in the order they came.
    pub fn end(self) -> (r: Result<Ast, Error>)
        ensures
            r matches Ok(a) && a@ == (Node::Mapping { len: self@.0, entries: self@.1 }),
    {
        Ok(XAst::Mapping { len: self.len, ops: self.inner_ops })
    }
}

/// The accumulator of a struct.
pub struct SerializeStruct {
    name: String,
    len: usize,
    inner_ops: Vec<Struct<Final>>,
}

impl View for SerializeStruct {
    type V = (Seq<char>, usize, Seq<Member>);

    closed spec fn view(&self) -> (Seq<char>, usize, Seq<Member>) {
        (self.name@, self.len, struct_ops_view(self.inner_ops@))
    }
}

impl SerializeStruct {
    /// An accumulator with no operations yet.
    pub fn new(name: String, len: usize) -> (s: Self)
        ensures
            s@ == (name@, len, Seq::<Member>::empty()),
    {
        SerializeStruct { name, len, inner_ops: Vec::new() }
    }

    /// Adds the field `key`, from the capture of its value.
    pub fn serialize_field(
        &mut self,
        key: String,
        value: Result<Ast,
        Error>,
    ) -> (r: Result<(), Error>)
        ensures
            match value {
                Ok(v) => r is Ok
                    && final(self)@
                        == (old(self)@.0, old(self)@.1, old(self)@.2.push(Member::Field(key@, v@))),
                Err(e) => r == Err::<(), Error>(e) && final(self)@ == old(self)@,
            },
    {
        match value {
            Ok(v) => {
                let ghost before = self.inner_ops@;
                self.inner_ops.push(Struct::Field { key, value: Box::new(v) });
                assert(self.inner_ops@.subrange(0, self.inner_ops@.len() - 1) =~= before);
                Ok(())
            },
            Err(e) => Err(e),
        }
    }

    /// Records that the field `key` is left out.
    pub fn skip_field(&mut self, key: String) -> (r: Result<(), Error>)
        ensures
            r is Ok,
            final(self)@ == (old(self)@.0, old(self)@.1, old(self)@.2.push(Member::Skip(key@))),
    {
        let ghost before = self.inner_ops@;
        self.inner_ops.push(Struct::Skip { key });
        assert(self.inner_ops@.subrange(0, self.inner_ops@.len() - 1) =~= before);
        Ok(())
    }

    /// Closes the struct: its node holds fields and skips in the order they came.
    pub fn end(self) -> (r: Result<Ast, Error>)
        ensures
            r matches Ok(a)
                && a@ == (Node::Struct { name: self@.0, len: self@.1, members: self@.2 }),
    {
        Ok(XAst::Struct { name: self.name, len: self.len, ops: self.inner_ops })
    }
}

/// The accumulator of a struct variant.
pub struct SerializeStructVariant {
    name: String,
    variant_index: u32,
    variant: String,
    len: usize,
    inner_ops: Vec<StructVariant<Final>>,
}

impl View for SerializeStructVariant {
    type V = (Seq<char>, u32, Seq<char>, usize, Seq<Member>);

    closed spec fn view(&self) -> (Seq<char>, u32, Seq<char>, usize, Seq<Member>) {
        (
            self.name@,
            self.variant_index,
            self.variant@,
            self.len,
            struct_variant_ops_view(self.inner_ops@),
        )
    }
}

impl SerializeStructVariant {
    /// An accumulator with no operations yet.
    pub fn new(name: String, variant_index: u32, variant: String, len: usize) -> (s: Self)
        ensures
            s@ == (name@, variant_index, variant@, len, Seq::<Member>::empty()),
    {
        SerializeStructVariant { name, variant_index, variant, len, inner_ops: Vec::new() }
    }

    /// Adds the field `key`, from the capture of its value.
    pub fn serialize_field(
        &mut self,
        key: String,
        value: Result<Ast,
        Error>,
    ) -> (r: Result<(), Error>)
        ensures
            match value {
                Ok(v) => r is Ok
                    && final(self)@
                        == (
                            old(self)@.0,
                            old(self)@.1,
                            old(self)@.2,
                            old(self)@.3,
                            old(self)@.4.push(Member::Field(key@, v@)),
                        ),
                Err(e) => r == Err::<(), Error>(e) && final(self)@ == old(self)@,
            },
    {
        match value {
            Ok(v) => {
                let ghost before = self.inner_ops@;
                self.inner_ops.push(StructVariant::Field { key, value: Box::new(v) });
                assert(self.inner_ops@.subrange(0, self.inner_ops@.len() - 1) =~= before);
                Ok(())
            },
            Err(e) => Err(e),
        }
    }

    /// Records that the field `key` is left out.
    pub fn skip_field(&mut self, key: String) -> (r: Result<(), Error>)
        ensures
            r is Ok,
            final(self)@
                == (
                    old(self)@.0,
                    old(self)@.1,
                    old(self)@.2,
                    old(self)@.3,
                    old(self)@.4.push(Member::Skip(key@)),
                ),
    {
        let ghost before = self.inner_ops@;
        self.inner_ops.push(StructVariant::Skip { key });
        assert(self.inner_ops@.subrange(0, self.inner_ops@.len() - 1) =~= before);
        Ok(())
    }

    /// Closes the struct variant: its node holds fields and skips in the order they came.
    pub fn end(self) -> (r: Result<Ast, Error>)
        ensures
            r matches Ok(a)
                && a@
                    == (Node::StructVariant {
                        name: self@.0,
                        variant_index: self@.1,
                        variant: self@.2,
                        len: self@.3,
                        members: self@.4,
                    }),
    {
        Ok(XAst::StructVariant {
            name: self.name,
            variant_index: self.variant_index,
            variant: self.variant,
            len: self.len,
            ops: self.inner_ops,
        })
    }
}

} // verus!

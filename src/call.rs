//! The push protocol as a flat sequence of calls, and replay: the calls that
//! re-drive a serializer to produce what a tree records.
use crate::ast::{
    Ast, Entry, Final, MapOp, Member, Node, SeqOp, Struct, StructVariant, Tuple, TupleStruct,
    TupleVariant, XAst, all_closed, closed, entries_closed, map_ops_view, members_closed,
    seq_ops_view, struct_ops_view, struct_variant_ops_view, tuple_ops_view, tuple_struct_ops_view,
    tuple_variant_ops_view,
};
use vstd::prelude::*;

verus! {

/// One call into a serializer, or into one of its aggregate accumulators.
///
/// A value's calls read as a prefix walk of its tree: an aggregate is opened,
/// each of its operations is marked and followed by the calls of the value it
/// carries, and `End` closes it.
#[derive(Debug, Clone, PartialEq)]
pub enum Call {
    Bool(bool),
    I8(i8),
    I16(i16),
    I32(i32),
    I64(i64),
    U8(u8),
    U16(u16),
    U32(u32),
    U64(u64),
    F32(u32),
    F64(u64),
    Char(char),
    Str(String),
    Bytes(Vec<u8>),
    OptionNone,
    /// Followed by the calls of the value held.
    OptionSome,
    Unit,
    UnitStruct(String),
    UnitVariant { name: String, variant_index: u32, variant: String },
    /// Followed by the calls of the value wrapped.
    NewtypeStruct(String),
    /// Followed by the calls of the value wrapped.
    NewtypeVariant { name: String, variant_index: u32, variant: String },
    OpenSequence(Option<usize>),
    OpenTuple(usize),
    OpenTupleStruct { name: String, len: usize },
    OpenTupleVariant { name: String, variant_index: u32, variant: String, len: usize },
    OpenMapping(Option<usize>),
    OpenStruct { name: String, len: usize },
    OpenStructVariant { name: String, variant_index: u32, variant: String, len: usize },
    /// An element of a sequence or a tuple.
    Element,
    /// A field of a tuple struct or a tuple variant.
    Field,
    Key,
    Value,
    /// A field of a struct or a struct variant.
    NamedField(String),
    /// A field of a struct or a struct variant that is left out.
    SkipField(String),
    End,
}

/// The model of a call.
pub enum Step {
    Bool(bool),
    I8(i8),
    I16(i16),
    I32(i32),
    I64(i64),
    U8(u8),
    U16(u16),
    U32(u32),
    U64(u64),
    F32(u32),
    F64(u64),
    Char(char),
    Str(Seq<char>),
    Bytes(Seq<u8>),
    OptionNone,
    OptionSome,
    Unit,
    UnitStruct(Seq<char>),
    UnitVariant { name: Seq<char>, variant_index: u32, variant: Seq<char> },
    NewtypeStruct(Seq<char>),
    NewtypeVariant { name: Seq<char>, variant_index: u32, variant: Seq<char> },
    OpenSequence(Option<usize>),
    OpenTuple(usize),
    OpenTupleStruct { name: Seq<char>, len: usize },
    OpenTupleVariant { name: Seq<char>, variant_index: u32, variant: Seq<char>, len: usize },
    OpenMapping(Option<usize>),
    OpenStruct { name: Seq<char>, len: usize },
    OpenStructVariant { name: Seq<char>, variant_index: u32, variant: Seq<char>, len: usize },
    Element,
    Field,
    Key,
    Value,
    NamedField(Seq<char>),
    SkipField(Seq<char>),
    End,
}

impl View for Call {
    type V = Step;

    open spec fn view(&self) -> Step {
        match *self {
            Call::Bool(v) => Step::Bool(v),
            Call::I8(v) => Step::I8(v),
            Call::I16(v) => Step::I16(v),
            Call::I32(v) => Step::I32(v),
            Call::I64(v) => Step::I64(v),
            Call::U8(v) => Step::U8(v),
            Call::U16(v) => Step::U16(v),
            Call::U32(v) => Step::U32(v),
            Call::U64(v) => Step::U64(v),
            Call::F32(v) => Step::F32(v),
            Call::F64(v) => Step::F64(v),
            Call::Char(v) => Step::Char(v),
            Call::Str(v) => Step::Str(v@),
            Call::Bytes(v) => Step::Bytes(v@),
            Call::OptionNone => Step::OptionNone,
            Call::OptionSome => Step::OptionSome,
            Call::Unit => Step::Unit,
            Call::UnitStruct(name) => Step::UnitStruct(name@),
            Call::UnitVariant { name, variant_index, variant } => Step::UnitVariant {
                name: name@,
                variant_index,
                variant: variant@,
            },
            Call::NewtypeStruct(name) => Step::NewtypeStruct(name@),
            Call::NewtypeVariant { name, variant_index, variant } => Step::NewtypeVariant {
                name: name@,
                variant_index,
                variant: variant@,
            },
            Call::OpenSequence(len) => Step::OpenSequence(len),
            Call::OpenTuple(len) => Step::OpenTuple(len),
            Call::OpenTupleStruct { name, len } => Step::OpenTupleStruct { name: name@, len },
            Call::OpenTupleVariant { name, variant_index, variant, len } => Step::OpenTupleVariant {
                name: name@,
                variant_index,
                variant: variant@,
                len,
            },
            Call::OpenMapping(len) => Step::OpenMapping(len),
            Call::OpenStruct { name, len } => Step::OpenStruct { name: name@, len },
            Call::OpenStructVariant { name, variant_index, variant, len } => Step::OpenStructVariant {
                name: name@,
                variant_index,
                variant: variant@,
                len,
            },
            Call::Element => Step::Element,
            Call::Field => Step::Field,
            Call::Key => Step::Key,
            Call::Value => Step::Value,
            Call::NamedField(key) => Step::NamedField(key@),
            Call::SkipField(key) => Step::SkipField(key@),
            Call::End => Step::End,
        }
    }
}

/// The model of a list of calls.
pub open spec fn steps(calls: Seq<Call>) -> Seq<Step> {
    calls.map_values(|c: Call| c@)
}

/// The calls of a list of values, each announced by `mark`.
pub open spec fn marked_calls(values: Seq<Node>, mark: Step) -> Seq<Step>
    decreases values,
{
    if values.len() == 0 {
        Seq::empty()
    } else {
        marked_calls(values.subrange(0, values.len() - 1), mark) + seq![mark] + calls_of(
            values.last(),
        )
    }
}

/// The calls of a list of map operations.
pub open spec fn entry_calls(entries: Seq<Entry>) -> Seq<Step>
    decreases entries,
{
    if entries.len() == 0 {
        Seq::empty()
    } else {
        entry_calls(entries.subrange(0, entries.len() - 1)) + match entries.last() {
            Entry::Key(k) => seq![Step::Key] + calls_of(k),
            Entry::Value(v) => seq![Step::Value] + calls_of(v),
        }
    }
}

/// The calls of a list of struct operations.
pub open spec fn member_calls(members: Seq<Member>) -> Seq<Step>
    decreases members,
{
    if members.len() == 0 {
        Seq::empty()
    } else {
        member_calls(members.subrange(0, members.len() - 1)) + match members.last() {
            Member::Field(key, v) => seq![Step::NamedField(key)] + calls_of(v),
            Member::Skip(key) => seq![Step::SkipField(key)],
        }
    }
}

/// The calls that a node stands for: what replaying it issues, in order.
pub open spec fn calls_of(n: Node) -> Seq<Step>
    decreases n,
{
    match n {
        Node::Bool(v) => seq![Step::Bool(v)],
        Node::I8(v) => seq![Step::I8(v)],
        Node::I16(v) => seq![Step::I16(v)],
        Node::I32(v) => seq![Step::I32(v)],
        Node::I64(v) => seq![Step::I64(v)],
        Node::U8(v) => seq![Step::U8(v)],
        Node::U16(v) => seq![Step::U16(v)],
        Node::U32(v) => seq![Step::U32(v)],
        Node::U64(v) => seq![Step::U64(v)],
        Node::F32(v) => seq![Step::F32(v)],
        Node::F64(v) => seq![Step::F64(v)],
        Node::Char(v) => seq![Step::Char(v)],
        Node::Str(v) => seq![Step::Str(v)],
        Node::Bytes(v) => seq![Step::Bytes(v)],
        Node::OptionNone => seq![Step::OptionNone],
        Node::OptionSome(v) => seq![Step::OptionSome] + calls_of(*v),
        Node::Unit => seq![Step::Unit],
        Node::UnitStruct(name) => seq![Step::UnitStruct(name)],
        Node::UnitVariant { name, variant_index, variant } => seq![
            Step::UnitVariant { name, variant_index, variant },
        ],
        Node::NewtypeStruct { name, value } => seq![Step::NewtypeStruct(name)] + calls_of(*value),
        Node::NewtypeVariant { name, variant_index, variant, value } => seq![
            Step::NewtypeVariant { name, variant_index, variant },
        ] + calls_of(*value),
        Node::Sequence { len, elements } => seq![Step::OpenSequence(len)] + marked_calls(
            elements,
            Step::Element,
        ) + seq![Step::End],
        Node::Tuple { len, elements } => seq![Step::OpenTuple(len)] + marked_calls(
            elements,
            Step::Element,
        ) + seq![Step::End],
        Node::TupleStruct { name, len, fields } => seq![Step::OpenTupleStruct { name, len }]
            + marked_calls(fields, Step::Field) + seq![Step::End],
        Node::TupleVariant { name, variant_index, variant, len, fields } => seq![
            Step::OpenTupleVariant { name, variant_index, variant, len },
        ] + marked_calls(fields, Step::Field) + seq![Step::End],
        Node::Mapping { len, entries } => seq![Step::OpenMapping(len)] + entry_calls(entries)
            + seq![Step::End],
        Node::Struct { name, len, members } => seq![Step::OpenStruct { name, len }] + member_calls(
            members,
        ) + seq![Step::End],
        Node::StructVariant { name, variant_index, variant, len, members } => seq![
            Step::OpenStructVariant { name, variant_index, variant, len },
        ] + member_calls(members) + seq![Step::End],
        Node::Extension => Seq::empty(),
    }
}

/// Appending one call appends its model.
proof fn lemma_steps_push(calls: Seq<Call>, c: Call)
    ensures
        steps(calls.push(c)) == steps(calls).push(c@),
{
    assert(steps(calls.push(c)) =~= steps(calls).push(c@));
}

/// The calls of a list with one more value.
pub(crate) proof fn lemma_marked_calls_push(values: Seq<Node>, x: Node, mark: Step)
    ensures
        marked_calls(values.push(x), mark) == marked_calls(values, mark) + seq![mark] + calls_of(x),
{
    assert(values.push(x).subrange(0, values.len() as int) =~= values);
}

/// The calls of a list of map operations with one more.
pub(crate) proof fn lemma_entry_calls_push(entries: Seq<Entry>, e: Entry)
    ensures
        entry_calls(entries.push(e)) == entry_calls(entries) + match e {
            Entry::Key(k) => seq![Step::Key] + calls_of(k),
            Entry::Value(v) => seq![Step::Value] + calls_of(v),
        },
{
    assert(entries.push(e).subrange(0, entries.len() as int) =~= entries);
}

/// The calls of a list of struct operations with one more.
pub(crate) proof fn lemma_member_calls_push(members: Seq<Member>, m: Member)
    ensures
        member_calls(members.push(m)) == member_calls(members) + match m {
            Member::Field(key, v) => seq![Step::NamedField(key)] + calls_of(v),
            Member::Skip(key) => seq![Step::SkipField(key)],
        },
{
    assert(members.push(m).subrange(0, members.len() as int) =~= members);
}

/// Pushes one call onto `out`.
fn emit(out: &mut Vec<Call>, c: Call)
    ensures
        steps(final(out)@) == steps(old(out)@).push(c@),
{
    proof {
        lemma_steps_push(out@, c);
    }
    out.push(c);
}

fn replay_seq_ops(ops: &Vec<SeqOp<Final>>, out: &mut Vec<Call>)
    ensures
        steps(final(out)@) == steps(old(out)@) + marked_calls(seq_ops_view(ops@), Step::Element),
        all_closed(seq_ops_view(ops@)),
    decreases ops,
{
    let ghost start = steps(out@);
    let mut i: usize = 0;
    assert(ops@.subrange(0, 0) =~= Seq::<SeqOp<Final>>::empty());
    while i < ops.len()
        invariant
            i <= ops.len(),
            steps(out@)
                == start + marked_calls(seq_ops_view(ops@.subrange(0, i as int)), Step::Element),
            all_closed(seq_ops_view(ops@.subrange(0, i as int))),
        decreases ops.len() - i,
    {
        proof {
            assert(ops@.subrange(0, i + 1).subrange(0, i as int) =~= ops@.subrange(0, i as int));
        }
        match &ops[i] {
            SeqOp::Element { value } => {
                let ghost before = steps(out@);
                emit(out, Call::Element);
                replay_into(value, out);
                proof {
                    let prev = seq_ops_view(ops@.subrange(0, i as int));
                    let next = seq_ops_view(ops@.subrange(0, i + 1));
                    assert(next.subrange(0, prev.len() as int) =~= prev);
                }
                proof {
                    lemma_marked_calls_push(
                        seq_ops_view(ops@.subrange(0, i as int)),
                        value@,
                        Step::Element,
                    );
                    assert(before.push(Step::Element) + calls_of(value@)
                        =~= before + seq![Step::Element] + calls_of(value@));
                }
            },
        }
        i += 1;
    }
    assert(ops@.subrange(0, ops.len() as int) =~= ops@);
}

fn replay_tuple_ops(ops: &Vec<Tuple<Final>>, out: &mut Vec<Call>)
    ensures
        steps(final(out)@) == steps(old(out)@) + marked_calls(tuple_ops_view(ops@), Step::Element),
        all_closed(tuple_ops_view(ops@)),
    decreases ops,
{
    let ghost start = steps(out@);
    let mut i: usize = 0;
    assert(ops@.subrange(0, 0) =~= Seq::<Tuple<Final>>::empty());
    while i < ops.len()
        invariant
            i <= ops.len(),
            steps(out@)
                == start + marked_calls(tuple_ops_view(ops@.subrange(0, i as int)), Step::Element),
            all_closed(tuple_ops_view(ops@.subrange(0, i as int))),
        decreases ops.len() - i,
    {
        proof {
            assert(ops@.subrange(0, i + 1).subrange(0, i as int) =~= ops@.subrange(0, i as int));
        }
        match &ops[i] {
            Tuple::Element { value } => {
                let ghost before = steps(out@);
                emit(out, Call::Element);
                replay_into(value, out);
                proof {
                    let prev = tuple_ops_view(ops@.subrange(0, i as int));
                    let next = tuple_ops_view(ops@.subrange(0, i + 1));
                    assert(next.subrange(0, prev.len() as int) =~= prev);
                }
                proof {
                    lemma_marked_calls_push(
                        tuple_ops_view(ops@.subrange(0, i as int)),
                        value@,
                        Step::Element,
                    );
                    assert(before.push(Step::Element) + calls_of(value@)
                        =~= before + seq![Step::Element] + calls_of(value@));
                }
            },
        }
        i += 1;
    }
    assert(ops@.subrange(0, ops.len() as int) =~= ops@);
}

fn replay_tuple_struct_ops(ops: &Vec<TupleStruct<Final>>, out: &mut Vec<Call>)
    ensures
        steps(final(out)@)
            == steps(old(out)@) + marked_calls(tuple_struct_ops_view(ops@), Step::Field),
        all_closed(tuple_struct_ops_view(ops@)),
    decreases ops,
{
    let ghost start = steps(out@);
    let mut i: usize = 0;
    assert(ops@.subrange(0, 0) =~= Seq::<TupleStruct<Final>>::empty());
    while i < ops.len()
        invariant
            i <= ops.len(),
            steps(out@)
                == start
                    + marked_calls(tuple_struct_ops_view(ops@.subrange(0, i as int)), Step::Field),
            all_closed(tuple_struct_ops_view(ops@.subrange(0, i as int))),
        decreases ops.len() - i,
    {
        proof {
            assert(ops@.subrange(0, i + 1).subrange(0, i as int) =~= ops@.subrange(0, i as int));
        }
        match &ops[i] {
            TupleStruct::Field { value } => {
                let ghost before = steps(out@);
                emit(out, Call::Field);
                replay_into(value, out);
                proof {
                    let prev = tuple_struct_ops_view(ops@.subrange(0, i as int));
                    let next = tuple_struct_ops_view(ops@.subrange(0, i + 1));
                    assert(next.subrange(0, prev.len() as int) =~= prev);
                }
                proof {
                    lemma_marked_calls_push(
                        tuple_struct_ops_view(ops@.subrange(0, i as int)),
                        value@,
                        Step::Field,
                    );
                    assert(before.push(Step::Field) + calls_of(value@)
                        =~= before + seq![Step::Field] + calls_of(value@));
                }
            },
        }
        i += 1;
    }
    assert(ops@.subrange(0, ops.len() as int) =~= ops@);
}

fn replay_tuple_variant_ops(ops: &Vec<TupleVariant<Final>>, out: &mut Vec<Call>)
    ensures
        steps(final(out)@)
            == steps(old(out)@) + marked_calls(tuple_variant_ops_view(ops@), Step::Field),
        all_closed(tuple_variant_ops_view(ops@)),
    decreases ops,
{
    let ghost start = steps(out@);
    let mut i: usize = 0;
    assert(ops@.subrange(0, 0) =~= Seq::<TupleVariant<Final>>::empty());
    while i < ops.len()
        invariant
            i <= ops.len(),
            steps(out@)
                == start
                    + marked_calls(tuple_variant_ops_view(ops@.subrange(0, i as int)), Step::Field),
            all_closed(tuple_variant_ops_view(ops@.subrange(0, i as int))),
        decreases ops.len() - i,
    {
        proof {
            assert(ops@.subrange(0, i + 1).subrange(0, i as int) =~= ops@.subrange(0, i as int));
        }
        match &ops[i] {
            TupleVariant::Field { value } => {
                let ghost before = steps(out@);
                emit(out, Call::Field);
                replay_into(value, out);
                proof {
                    let prev = tuple_variant_ops_view(ops@.subrange(0, i as int));
                    let next = tuple_variant_ops_view(ops@.subrange(0, i + 1));
                    assert(next.subrange(0, prev.len() as int) =~= prev);
                }
                proof {
                    lemma_marked_calls_push(
                        tuple_variant_ops_view(ops@.subrange(0, i as int)),
                        value@,
                        Step::Field,
                    );
                    assert(before.push(Step::Field) + calls_of(value@)
                        =~= before + seq![Step::Field] + calls_of(value@));
                }
            },
        }
        i += 1;
    }
    assert(ops@.subrange(0, ops.len() as int) =~= ops@);
}

fn replay_map_ops(ops: &Vec<MapOp<Final>>, out: &mut Vec<Call>)
    ensures
        steps(final(out)@) == steps(old(out)@) + entry_calls(map_ops_view(ops@)),
        entries_closed(map_ops_view(ops@)),
    decreases ops,
{
    let ghost start = steps(out@);
    let mut i: usize = 0;
    assert(ops@.subrange(0, 0) =~= Seq::<MapOp<Final>>::empty());
    while i < ops.len()
        invariant
            i <= ops.len(),
            steps(out@) == start + entry_calls(map_ops_view(ops@.subrange(0, i as int))),
            entries_closed(map_ops_view(ops@.subrange(0, i as int))),
        decreases ops.len() - i,
    {
        proof {
            assert(ops@.subrange(0, i + 1).subrange(0, i as int) =~= ops@.subrange(0, i as int));
        }
        let ghost before = steps(out@);
        match &ops[i] {
            MapOp::Key { key } => {
                emit(out, Call::Key);
                replay_into(key, out);
                proof {
                    let prev = map_ops_view(ops@.subrange(0, i as int));
                    let next = map_ops_view(ops@.subrange(0, i + 1));
                    assert(next.subrange(0, prev.len() as int) =~= prev);
                }
                proof {
                    lemma_entry_calls_push(
                        map_ops_view(ops@.subrange(0, i as int)),
                        Entry::Key(key@),
                    );
                    assert(before.push(Step::Key) + calls_of(key@)
                        =~= before + (seq![Step::Key] + calls_of(key@)));
                }
            },
            MapOp::Value { value } => {
                emit(out, Call::Value);
                replay_into(value, out);
                proof {
                    let prev = map_ops_view(ops@.subrange(0, i as int));
                    let next = map_ops_view(ops@.subrange(0, i + 1));
                    assert(next.subrange(0, prev.len() as int) =~= prev);
                }
                proof {
                    lemma_entry_calls_push(
                        map_ops_view(ops@.subrange(0, i as int)),
                        Entry::Value(value@),
                    );
                    assert(before.push(Step::Value) + calls_of(value@)
                        =~= before + (seq![Step::Value] + calls_of(value@)));
                }
            },
        }
        i += 1;
    }
    assert(ops@.subrange(0, ops.len() as int) =~= ops@);
}

fn replay_struct_ops(ops: &Vec<Struct<Final>>, out: &mut Vec<Call>)
    ensures
        steps(final(out)@) == steps(old(out)@) + member_calls(struct_ops_view(ops@)),
        members_closed(struct_ops_view(ops@)),
    decreases ops,
{
    let ghost start = steps(out@);
    let mut i: usize = 0;
    assert(ops@.subrange(0, 0) =~= Seq::<Struct<Final>>::empty());
    while i < ops.len()
        invariant
            i <= ops.len(),
            steps(out@) == start + member_calls(struct_ops_view(ops@.subrange(0, i as int))),
            members_closed(struct_ops_view(ops@.subrange(0, i as int))),
        decreases ops.len() - i,
    {
        proof {
            assert(ops@.subrange(0, i + 1).subrange(0, i as int) =~= ops@.subrange(0, i as int));
        }
        let ghost before = steps(out@);
        match &ops[i] {
            Struct::Field { key, value } => {
                emit(out, Call::NamedField(key.clone()));
                replay_into(value, out);
                proof {
                    let prev = struct_ops_view(ops@.subrange(0, i as int));
                    let next = struct_ops_view(ops@.subrange(0, i + 1));
                    assert(next.subrange(0, prev.len() as int) =~= prev);
                }
                proof {
                    lemma_member_calls_push(
                        struct_ops_view(ops@.subrange(0, i as int)),
                        Member::Field(key@, value@),
                    );
                    assert(before.push(Step::NamedField(key@)) + calls_of(value@)
                        =~= before + (seq![Step::NamedField(key@)] + calls_of(value@)));
                }
            },
            Struct::Skip { key } => {
                emit(out, Call::SkipField(key.clone()));
                proof {
                    let prev = struct_ops_view(ops@.subrange(0, i as int));
                    let next = struct_ops_view(ops@.subrange(0, i + 1));
                    assert(next.subrange(0, prev.len() as int) =~= prev);
                }
                proof {
                    lemma_member_calls_push(
                        struct_ops_view(ops@.subrange(0, i as int)),
                        Member::Skip(key@),
                    );
                    assert(before.push(Step::SkipField(key@))
                        =~= before + seq![Step::SkipField(key@)]);
                }
            },
        }
        i += 1;
    }
    assert(ops@.subrange(0, ops.len() as int) =~= ops@);
}

fn replay_struct_variant_ops(ops: &Vec<StructVariant<Final>>, out: &mut Vec<Call>)
    ensures
        steps(final(out)@) == steps(old(out)@) + member_calls(struct_variant_ops_view(ops@)),
        members_closed(struct_variant_ops_view(ops@)),
    decreases ops,
{
    let ghost start = steps(out@);
    let mut i: usize = 0;
    assert(ops@.subrange(0, 0) =~= Seq::<StructVariant<Final>>::empty());
    while i < ops.len()
        invariant
            i <= ops.len(),
            steps(out@)
                == start + member_calls(struct_variant_ops_view(ops@.subrange(0, i as int))),
            members_closed(struct_variant_ops_view(ops@.subrange(0, i as int))),
        decreases ops.len() - i,
    {
        proof {
            assert(ops@.subrange(0, i + 1).subrange(0, i as int) =~= ops@.subrange(0, i as int));
        }
        let ghost before = steps(out@);
        match &ops[i] {
            StructVariant::Field { key, value } => {
                emit(out, Call::NamedField(key.clone()));
                replay_into(value, out);
                proof {
                    let prev = struct_variant_ops_view(ops@.subrange(0, i as int));
                    let next = struct_variant_ops_view(ops@.subrange(0, i + 1));
                    assert(next.subrange(0, prev.len() as int) =~= prev);
                }
                proof {
                    lemma_member_calls_push(
                        struct_variant_ops_view(ops@.subrange(0, i as int)),
                        Member::Field(key@, value@),
                    );
                    assert(before.push(Step::NamedField(key@)) + calls_of(value@)
                        =~= before + (seq![Step::NamedField(key@)] + calls_of(value@)));
                }
            },
            StructVariant::Skip { key } => {
                emit(out, Call::SkipField(key.clone()));
                proof {
                    let prev = struct_variant_ops_view(ops@.subrange(0, i as int));
                    let next = struct_variant_ops_view(ops@.subrange(0, i + 1));
                    assert(next.subrange(0, prev.len() as int) =~= prev);
                }
                proof {
                    lemma_member_calls_push(
                        struct_variant_ops_view(ops@.subrange(0, i as int)),
                        Member::Skip(key@),
                    );
                    assert(before.push(Step::SkipField(key@))
                        =~= before + seq![Step::SkipField(key@)]);
                }
            },
        }
        i += 1;
    }
    assert(ops@.subrange(0, ops.len() as int) =~= ops@);
}

/// Appends to `out` the calls that replaying `a` issues.
fn replay_into(a: &Ast, out: &mut Vec<Call>)
    ensures
        steps(final(out)@) == steps(old(out)@) + calls_of(a@),
        closed(a@),
    decreases a,
{
    let ghost start = steps(out@);
    match a {
        XAst::Bool(v) => emit(out, Call::Bool(*v)),
        XAst::I8(v) => emit(out, Call::I8(*v)),
        XAst::I16(v) => emit(out, Call::I16(*v)),
        XAst::I32(v) => emit(out, Call::I32(*v)),
        XAst::I64(v) => emit(out, Call::I64(*v)),
        XAst::U8(v) => emit(out, Call::U8(*v)),
        XAst::U16(v) => emit(out, Call::U16(*v)),
        XAst::U32(v) => emit(out, Call::U32(*v)),
        XAst::U64(v) => emit(out, Call::U64(*v)),
        XAst::F32(v) => emit(out, Call::F32(*v)),
        XAst::F64(v) => emit(out, Call::F64(*v)),
        XAst::Char(v) => emit(out, Call::Char(*v)),
        XAst::Str(v) => emit(out, Call::Str(v.clone())),
        XAst::Bytes(v) => emit(out, Call::Bytes(copy_bytes(v))),
        XAst::OptionNone => emit(out, Call::OptionNone),
        XAst::OptionSome(v) => {
            emit(out, Call::OptionSome);
            replay_into(v, out);
        },
        XAst::Unit => emit(out, Call::Unit),
        XAst::UnitStruct(name) => emit(out, Call::UnitStruct(name.clone())),
        XAst::UnitVariant { name, variant_index, variant } => emit(
            out,
            Call::UnitVariant {
                name: name.clone(),
                variant_index: *variant_index,
                variant: variant.clone(),
            },
        ),
        XAst::NewtypeStruct { name, value } => {
            emit(out, Call::NewtypeStruct(name.clone()));
            replay_into(value, out);
        },
        XAst::NewtypeVariant { name, variant_index, variant, value } => {
            emit(
                out,
                Call::NewtypeVariant {
                    name: name.clone(),
                    variant_index: *variant_index,
                    variant: variant.clone(),
                },
            );
            replay_into(value, out);
        },
        XAst::Sequence { len, ops } => {
            emit(out, Call::OpenSequence(*len));
            replay_seq_ops(ops, out);
            emit(out, Call::End);
        },
        XAst::Tuple { len, ops } => {
            emit(out, Call::OpenTuple(*len));
            replay_tuple_ops(ops, out);
            emit(out, Call::End);
        },
        XAst::TupleStruct { name, len, ops } => {
            emit(out, Call::OpenTupleStruct { name: name.clone(), len: *len });
            replay_tuple_struct_ops(ops, out);
            emit(out, Call::End);
        },
        XAst::TupleVariant { name, variant_index, variant, len, ops } => {
            emit(
                out,
                Call::OpenTupleVariant {
                    name: name.clone(),
                    variant_index: *variant_index,
                    variant: variant.clone(),
                    len: *len,
                },
            );
            replay_tuple_variant_ops(ops, out);
            emit(out, Call::End);
        },
        XAst::Mapping { len, ops } => {
            emit(out, Call::OpenMapping(*len));
            replay_map_ops(ops, out);
            emit(out, Call::End);
        },
        XAst::Struct { name, len, ops } => {
            emit(out, Call::OpenStruct { name: name.clone(), len: *len });
            replay_struct_ops(ops, out);
            emit(out, Call::End);
        },
        XAst::StructVariant { name, variant_index, variant, len, ops } => {
            emit(
                out,
                Call::OpenStructVariant {
                    name: name.clone(),
                    variant_index: *variant_index,
                    variant: variant.clone(),
                    len: *len,
                },
            );
            replay_struct_variant_ops(ops, out);
            emit(out, Call::End);
        },
        XAst::X(f) => {
            proof {
                use_type_invariant(f);
            }
        },
    }
    assert(steps(out@) =~= start + calls_of(a@));
}

/// Copies a byte string.
fn copy_bytes(v: &Vec<u8>) -> (r: Vec<u8>)
    ensures
        r@ == v@,
{
    vstd::slice::slice_to_vec(v.as_slice())
}

impl XAst<Final> {
    /// Replay: the calls that re-drive a serializer to produce what this tree
    /// records, in order, with every name, index, length hint and skip as
    /// stored.
    pub fn calls(&self) -> (r: Vec<Call>)
        ensures
            steps(r@) == calls_of(self@),
            closed(self@),
    {
        let mut out: Vec<Call> = Vec::new();
        assert(steps(out@) =~= Seq::<Step>::empty());
        replay_into(self, &mut out);
        assert(Seq::<Step>::empty() + calls_of(self@) =~= calls_of(self@));
        out
    }
}

} // verus!

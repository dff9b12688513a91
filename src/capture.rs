//! Capture from a flat sequence of calls: the tree that the calls describe.
use crate::ast::{Ast, Entry, Member, Node, all_closed, closed, entries_closed, members_closed};
use crate::call::{
    Call, Step, calls_of, entry_calls, lemma_entry_calls_push, lemma_marked_calls_push,
    lemma_member_calls_push, marked_calls, member_calls, steps,
};
use crate::ser::{Error, Serializer};
use vstd::prelude::*;

verus! {

/// `part` stands in `whole` from index `at` on.
pub open spec fn is_prefix_at(whole: Seq<Step>, at: int, part: Seq<Step>) -> bool {
    0 <= at && at + part.len() <= whole.len() && whole.subrange(at, at + part.len()) == part
}

/// The first call of a node's calls.
pub open spec fn head_step(n: Node) -> Step {
    match n {
        Node::Bool(v) => Step::Bool(v),
        Node::I8(v) => Step::I8(v),
        Node::I16(v) => Step::I16(v),
        Node::I32(v) => Step::I32(v),
        Node::I64(v) => Step::I64(v),
        Node::U8(v) => Step::U8(v),
        Node::U16(v) => Step::U16(v),
        Node::U32(v) => Step::U32(v),
        Node::U64(v) => Step::U64(v),
        Node::F32(v) => Step::F32(v),
        Node::F64(v) => Step::F64(v),
        Node::Char(v) => Step::Char(v),
        Node::Str(v) => Step::Str(v),
        Node::Bytes(v) => Step::Bytes(v),
        Node::OptionNone => Step::OptionNone,
        Node::OptionSome(_) => Step::OptionSome,
        Node::Unit => Step::Unit,
        Node::UnitStruct(name) => Step::UnitStruct(name),
        Node::UnitVariant { name, variant_index, variant } => Step::UnitVariant {
            name,
            variant_index,
            variant,
        },
        Node::NewtypeStruct { name, .. } => Step::NewtypeStruct(name),
        Node::NewtypeVariant { name, variant_index, variant, .. } => Step::NewtypeVariant {
            name,
            variant_index,
            variant,
        },
        Node::Sequence { len, .. } => Step::OpenSequence(len),
        Node::Tuple { len, .. } => Step::OpenTuple(len),
        Node::TupleStruct { name, len, .. } => Step::OpenTupleStruct { name, len },
        Node::TupleVariant { name, variant_index, variant, len, .. } => Step::OpenTupleVariant {
            name,
            variant_index,
            variant,
            len,
        },
        Node::Mapping { len, .. } => Step::OpenMapping(len),
        Node::Struct { name, len, .. } => Step::OpenStruct { name, len },
        Node::StructVariant { name, variant_index, variant, len, .. } => Step::OpenStructVariant {
            name,
            variant_index,
            variant,
            len,
        },
        Node::Extension => Step::End,
    }
}

/// A closed node's calls are not empty, and start with its head.
pub(crate) proof fn lemma_head(n: Node)
    requires
        closed(n),
    ensures
        calls_of(n).len() >= 1,
        calls_of(n)[0] == head_step(n),
{
}

/// A prefix made of two parts is the two parts, one after the other.
pub(crate) proof fn lemma_prefix_concat(whole: Seq<Step>, at: int, a: Seq<Step>, b: Seq<Step>)
    ensures
        is_prefix_at(whole, at, a + b) == (is_prefix_at(whole, at, a) && is_prefix_at(
            whole,
            at + a.len(),
            b,
        )),
{
    if is_prefix_at(whole, at, a + b) {
        let w = whole.subrange(at, at + a.len() + b.len());
        assert(w == a + b);
        assert(whole.subrange(at, at + a.len()) =~= w.subrange(0, a.len() as int));
        assert(w.subrange(0, a.len() as int) =~= a);
        assert(whole.subrange(at + a.len(), at + a.len() + b.len()) =~= w.subrange(
            a.len() as int,
            w.len() as int,
        ));
        assert(w.subrange(a.len() as int, w.len() as int) =~= b);
    }
    if is_prefix_at(whole, at, a) && is_prefix_at(whole, at + a.len(), b) {
        assert(whole.subrange(at, at + (a + b).len()) =~= a + b);
    }
}

/// A one-call prefix is that call.
pub(crate) proof fn lemma_prefix_single(whole: Seq<Step>, at: int, x: Step)
    requires
        is_prefix_at(whole, at, seq![x]),
    ensures
        at < whole.len(),
        whole[at] == x,
{
    assert(whole.subrange(at, at + 1)[0] == whole[at]);
}

/// A prefix of a prefix is a prefix.
pub(crate) proof fn lemma_prefix_trans(whole: Seq<Step>, at: int, a: Seq<Step>, b: Seq<Step>)
    requires
        is_prefix_at(whole, at, a),
        is_prefix_at(a, 0, b),
    ensures
        is_prefix_at(whole, at, b),
{
    assert(whole.subrange(at, at + b.len()) =~= a.subrange(0, b.len() as int));
}

/// The calls of the first `k` values come first in the calls of the list.
pub(crate) proof fn lemma_marked_prefix(values: Seq<Node>, k: int, mark: Step)
    requires
        0 <= k <= values.len(),
    ensures
        is_prefix_at(marked_calls(values, mark), 0, marked_calls(values.take(k), mark)),
    decreases values.len() - k,
{
    if k == values.len() {
        assert(values.take(k) =~= values);
        assert(marked_calls(values, mark).subrange(0, marked_calls(values, mark).len() as int)
            =~= marked_calls(values, mark));
    } else {
        lemma_marked_prefix(values, k + 1, mark);
        lemma_marked_take(values, k, mark);
        let short = marked_calls(values.take(k), mark);
        let long = marked_calls(values.take(k + 1), mark);
        assert(long.subrange(0, short.len() as int) =~= short);
        lemma_prefix_trans(marked_calls(values, mark), 0, long, short);
    }
}

/// The calls of a list of values with one more.
pub(crate) proof fn lemma_marked_take(values: Seq<Node>, k: int, mark: Step)
    requires
        0 <= k < values.len(),
    ensures
        marked_calls(values.take(k + 1), mark) == marked_calls(values.take(k), mark) + seq![mark]
            + calls_of(values[k]),
{
    assert(values.take(k + 1).subrange(0, k) =~= values.take(k));
}

/// The next call after the first `k` values of a list: the mark of the next
/// value, followed by its calls, or the end of the aggregate.
proof fn lemma_marked_next(
    s: Seq<Step>,
    pos: int,
    open: Step,
    values: Seq<Node>,
    mark: Step,
    k: int,
    p: int,
)
    requires
        is_prefix_at(s, pos, seq![open] + marked_calls(values, mark) + seq![Step::End]),
        0 <= k <= values.len(),
        p == pos + 1 + marked_calls(values.take(k), mark).len(),
    ensures
        k < values.len()
            ==> p < s.len() && s[p] == mark && is_prefix_at(s, p + 1, calls_of(values[k])),
        k == values.len() ==> p < s.len() && s[p] == Step::End && p + 1 == pos + (seq![open]
            + marked_calls(values, mark) + seq![Step::End]).len(),
{
    let m = marked_calls(values, mark);
    lemma_prefix_concat(s, pos, seq![open] + m, seq![Step::End]);
    lemma_prefix_concat(s, pos, seq![open], m);
    lemma_marked_prefix(values, k, mark);
    if k < values.len() {
        lemma_marked_prefix(values, k + 1, mark);
        lemma_marked_take(values, k, mark);
        let mk = marked_calls(values.take(k), mark);
        lemma_prefix_trans(s, pos + 1, m, marked_calls(values.take(k + 1), mark));
        lemma_prefix_concat(s, pos + 1, mk + seq![mark], calls_of(values[k]));
        lemma_prefix_concat(s, pos + 1, mk, seq![mark]);
        lemma_prefix_single(s, p, mark);
    } else {
        assert(values.take(k) =~= values);
        lemma_prefix_single(s, p, Step::End);
    }
}

/// Each value of a closed list is closed.
proof fn lemma_all_closed_index(values: Seq<Node>, i: int)
    requires
        all_closed(values),
        0 <= i < values.len(),
    ensures
        closed(values[i]),
    decreases values.len(),
{
    if i < values.len() - 1 {
        lemma_all_closed_index(values.subrange(0, values.len() - 1), i);
    }
}

/// A closed list with one more closed value is closed.
proof fn lemma_all_closed_push(values: Seq<Node>, v: Node)
    requires
        all_closed(values),
        closed(v),
    ensures
        all_closed(values.push(v)),
{
    assert(values.push(v).subrange(0, values.len() as int) =~= values);
}

/// Two closed nodes whose calls both stand at `pos` are the same node.
pub(crate) proof fn lemma_prefix_unique(s: Seq<Step>, pos: int, a: Node, b: Node)
    requires
        closed(a),
        closed(b),
        is_prefix_at(s, pos, calls_of(a)),
        is_prefix_at(s, pos, calls_of(b)),
    ensures
        a == b,
    decreases a, 0int,
{
    lemma_head(a);
    lemma_head(b);
    assert(s.subrange(pos, pos + calls_of(a).len())[0] == s[pos]);
    assert(s.subrange(pos, pos + calls_of(b).len())[0] == s[pos]);
    match a {
        Node::OptionSome(x) => {
            let y = *b->OptionSome_0;
            lemma_prefix_concat(s, pos, seq![Step::OptionSome], calls_of(*x));
            lemma_prefix_concat(s, pos, seq![Step::OptionSome], calls_of(y));
            lemma_prefix_unique(s, pos + 1, *x, y);
        },
        Node::NewtypeStruct { name, value } => {
            let y = *b->NewtypeStruct_value;
            lemma_prefix_concat(s, pos, seq![head_step(a)], calls_of(*value));
            lemma_prefix_concat(s, pos, seq![head_step(a)], calls_of(y));
            lemma_prefix_unique(s, pos + 1, *value, y);
        },
        Node::NewtypeVariant { name, variant_index, variant, value } => {
            let y = *b->NewtypeVariant_value;
            lemma_prefix_concat(s, pos, seq![head_step(a)], calls_of(*value));
            lemma_prefix_concat(s, pos, seq![head_step(a)], calls_of(y));
            lemma_prefix_unique(s, pos + 1, *value, y);
        },
        Node::Sequence { len, elements } => {
            assert(elements.take(0) =~= b->Sequence_elements.take(0));
            lemma_values_unique(
                s,
                pos,
                head_step(a),
                elements,
                b->Sequence_elements,
                Step::Element,
                0,
            );
        },
        Node::Tuple { len, elements } => {
            assert(elements.take(0) =~= b->Tuple_elements.take(0));
            lemma_values_unique(
                s,
                pos,
                head_step(a),
                elements,
                b->Tuple_elements,
                Step::Element,
                0,
            );
        },
        Node::TupleStruct { name, len, fields } => {
            assert(fields.take(0) =~= b->TupleStruct_fields.take(0));
            lemma_values_unique(
                s,
                pos,
                head_step(a),
                fields,
                b->TupleStruct_fields,
                Step::Field,
                0,
            );
        },
        Node::TupleVariant { name, variant_index, variant, len, fields } => {
            assert(fields.take(0) =~= b->TupleVariant_fields.take(0));
            lemma_values_unique(
                s,
                pos,
                head_step(a),
                fields,
                b->TupleVariant_fields,
                Step::Field,
                0,
            );
        },
        Node::Mapping { len, entries } => {
            assert(entries.take(0) =~= b->Mapping_entries.take(0));
            lemma_entries_unique(s, pos, head_step(a), entries, b->Mapping_entries, 0);
        },
        Node::Struct { name, len, members } => {
            assert(members.take(0) =~= b->Struct_members.take(0));
            lemma_members_unique(s, pos, head_step(a), members, b->Struct_members, 0);
        },
        Node::StructVariant { name, variant_index, variant, len, members } => {
            assert(members.take(0) =~= b->StructVariant_members.take(0));
            lemma_members_unique(s, pos, head_step(a), members, b->StructVariant_members, 0);
        },
        _ => {},
    }
}

/// Two closed lists of values whose calls stand at `pos` after the same
/// opening call, and agree on their first `k` values, are the same list.
proof fn lemma_values_unique(
    s: Seq<Step>,
    pos: int,
    open: Step,
    xs: Seq<Node>,
    ys: Seq<Node>,
    mark: Step,
    k: int,
)
    requires
        all_closed(xs),
        all_closed(ys),
        is_prefix_at(s, pos, seq![open] + marked_calls(xs, mark) + seq![Step::End]),
        is_prefix_at(s, pos, seq![open] + marked_calls(ys, mark) + seq![Step::End]),
        mark != Step::End,
        0 <= k <= xs.len(),
        k <= ys.len(),
        xs.take(k) == ys.take(k),
    ensures
        xs == ys,
    decreases xs, xs.len() - k,
{
    let p = pos + 1 + marked_calls(xs.take(k), mark).len();
    lemma_marked_next(s, pos, open, xs, mark, k, p);
    lemma_marked_next(s, pos, open, ys, mark, k, p);
    if k < xs.len() {
        lemma_all_closed_index(xs, k);
        lemma_all_closed_index(ys, k);
        lemma_prefix_unique(s, p + 1, xs[k], ys[k]);
        assert(xs.take(k + 1) =~= xs.take(k).push(xs[k]));
        assert(ys.take(k + 1) =~= ys.take(k).push(ys[k]));
        lemma_values_unique(s, pos, open, xs, ys, mark, k + 1);
    } else {
        assert(xs =~= xs.take(k));
        assert(ys =~= ys.take(k));
    }
}

/// Two closed lists of map operations whose calls stand at `pos` after the
/// same opening call, and agree on their first `k` operations, are the same.
proof fn lemma_entries_unique(
    s: Seq<Step>,
    pos: int,
    open: Step,
    xs: Seq<Entry>,
    ys: Seq<Entry>,
    k: int,
)
    requires
        entries_closed(xs),
        entries_closed(ys),
        is_prefix_at(s, pos, seq![open] + entry_calls(xs) + seq![Step::End]),
        is_prefix_at(s, pos, seq![open] + entry_calls(ys) + seq![Step::End]),
        0 <= k <= xs.len(),
        k <= ys.len(),
        xs.take(k) == ys.take(k),
    ensures
        xs == ys,
    decreases xs, xs.len() - k,
{
    let p = pos + 1 + entry_calls(xs.take(k)).len();
    lemma_entry_next(s, pos, open, xs, k, p);
    lemma_entry_next(s, pos, open, ys, k, p);
    if k < xs.len() {
        lemma_entries_closed_index(xs, k);
        lemma_entries_closed_index(ys, k);
        assert(decreases_to!(xs => xs[k]));
        lemma_prefix_unique(s, p + 1, entry_node(xs[k]), entry_node(ys[k]));
        assert(xs.take(k + 1) =~= xs.take(k).push(xs[k]));
        assert(ys.take(k + 1) =~= ys.take(k).push(ys[k]));
        lemma_entries_unique(s, pos, open, xs, ys, k + 1);
    } else {
        assert(xs =~= xs.take(k));
        assert(ys =~= ys.take(k));
    }
}

/// Two closed lists of struct operations whose calls stand at `pos` after the
/// same opening call, and agree on their first `k` operations, are the same.
proof fn lemma_members_unique(
    s: Seq<Step>,
    pos: int,
    open: Step,
    xs: Seq<Member>,
    ys: Seq<Member>,
    k: int,
)
    requires
        members_closed(xs),
        members_closed(ys),
        is_prefix_at(s, pos, seq![open] + member_calls(xs) + seq![Step::End]),
        is_prefix_at(s, pos, seq![open] + member_calls(ys) + seq![Step::End]),
        0 <= k <= xs.len(),
        k <= ys.len(),
        xs.take(k) == ys.take(k),
    ensures
        xs == ys,
    decreases xs, xs.len() - k,
{
    let p = pos + 1 + member_calls(xs.take(k)).len();
    lemma_member_next(s, pos, open, xs, k, p);
    lemma_member_next(s, pos, open, ys, k, p);
    if k < xs.len() {
        if xs[k] is Field {
            lemma_members_closed_index(xs, k);
            lemma_members_closed_index(ys, k);
            assert(decreases_to!(xs => xs[k]));
            lemma_prefix_unique(s, p + 1, xs[k]->Field_1, ys[k]->Field_1);
        }
        assert(xs.take(k + 1) =~= xs.take(k).push(xs[k]));
        assert(ys.take(k + 1) =~= ys.take(k).push(ys[k]));
        lemma_members_unique(s, pos, open, xs, ys, k + 1);
    } else {
        assert(xs =~= xs.take(k));
        assert(ys =~= ys.take(k));
    }
}

/// The error for calls that describe no value.
fn malformed() -> (e: Error)
    ensures
        e == Error::Custom(e->Custom_0) && e->Custom_0@ == "malformed call sequence"@,
{
    proof {
        reveal_strlit("malformed call sequence");
    }
    Error::custom("malformed call sequence".to_owned())
}

/// The error is the one for malformed calls.
pub open spec fn is_malformed(e: Error) -> bool {
    e->Custom_0@ == "malformed call sequence"@
}

/// The mark that announces a map operation.
pub open spec fn entry_mark(e: Entry) -> Step {
    match e {
        Entry::Key(_) => Step::Key,
        Entry::Value(_) => Step::Value,
    }
}

/// The node that a map operation carries.
pub open spec fn entry_node(e: Entry) -> Node {
    match e {
        Entry::Key(k) => k,
        Entry::Value(v) => v,
    }
}

/// The mark that announces a struct operation.
pub open spec fn member_mark(m: Member) -> Step {
    match m {
        Member::Field(key, _) => Step::NamedField(key),
        Member::Skip(key) => Step::SkipField(key),
    }
}

/// The calls that follow the mark of a struct operation.
pub open spec fn member_tail(m: Member) -> Seq<Step> {
    match m {
        Member::Field(_, v) => calls_of(v),
        Member::Skip(_) => Seq::empty(),
    }
}

/// The calls of the first `k + 1` map operations.
proof fn lemma_entry_take(entries: Seq<Entry>, k: int)
    requires
        0 <= k < entries.len(),
    ensures
        entry_calls(entries.take(k + 1))
            == entry_calls(entries.take(k)) + seq![entry_mark(entries[k])]
            + calls_of(entry_node(entries[k])),
{
    assert(entries.take(k + 1).subrange(0, k) =~= entries.take(k));
    let e = entries[k];
    assert(entry_calls(entries.take(k + 1)) =~= entry_calls(entries.take(k)) + seq![entry_mark(e)]
        + calls_of(entry_node(e)));
}

/// The calls of the first `k` map operations come first.
proof fn lemma_entry_prefix(entries: Seq<Entry>, k: int)
    requires
        0 <= k <= entries.len(),
    ensures
        is_prefix_at(entry_calls(entries), 0, entry_calls(entries.take(k))),
    decreases entries.len() - k,
{
    if k == entries.len() {
        assert(entries.take(k) =~= entries);
        assert(entry_calls(entries).subrange(0, entry_calls(entries).len() as int)
            =~= entry_calls(entries));
    } else {
        lemma_entry_prefix(entries, k + 1);
        lemma_entry_take(entries, k);
        let short = entry_calls(entries.take(k));
        let long = entry_calls(entries.take(k + 1));
        assert(long.subrange(0, short.len() as int) =~= short);
        lemma_prefix_trans(entry_calls(entries), 0, long, short);
    }
}

/// The next call after the first `k` map operations.
proof fn lemma_entry_next(s: Seq<Step>, pos: int, open: Step, entries: Seq<Entry>, k: int, p: int)
    requires
        is_prefix_at(s, pos, seq![open] + entry_calls(entries) + seq![Step::End]),
        0 <= k <= entries.len(),
        p == pos + 1 + entry_calls(entries.take(k)).len(),
    ensures
        k < entries.len() ==> p < s.len() && s[p] == entry_mark(entries[k]) && is_prefix_at(
            s,
            p + 1,
            calls_of(entry_node(entries[k])),
        ),
        k == entries.len() ==> p < s.len() && s[p] == Step::End && p + 1 == pos + (seq![open]
            + entry_calls(entries) + seq![Step::End]).len(),
{
    let m = entry_calls(entries);
    lemma_prefix_concat(s, pos, seq![open] + m, seq![Step::End]);
    lemma_prefix_concat(s, pos, seq![open], m);
    lemma_entry_prefix(entries, k);
    if k < entries.len() {
        lemma_entry_prefix(entries, k + 1);
        lemma_entry_take(entries, k);
        let mk = entry_calls(entries.take(k));
        let mark = entry_mark(entries[k]);
        lemma_prefix_trans(s, pos + 1, m, entry_calls(entries.take(k + 1)));
        lemma_prefix_concat(s, pos + 1, mk + seq![mark], calls_of(entry_node(entries[k])));
        lemma_prefix_concat(s, pos + 1, mk, seq![mark]);
        lemma_prefix_single(s, p, mark);
    } else {
        assert(entries.take(k) =~= entries);
        lemma_prefix_single(s, p, Step::End);
    }
}

/// The calls of the first `k + 1` struct operations.
pub(crate) proof fn lemma_member_take(members: Seq<Member>, k: int)
    requires
        0 <= k < members.len(),
    ensures
        member_calls(members.take(k + 1))
            == member_calls(members.take(k)) + seq![member_mark(members[k])]
            + member_tail(members[k]),
{
    assert(members.take(k + 1).subrange(0, k) =~= members.take(k));
    let m = members[k];
    assert(member_calls(members.take(k + 1)) =~= member_calls(members.take(k))
        + seq![member_mark(m)]
        + member_tail(m));
}

/// The calls of the first `k` struct operations come first.
pub(crate) proof fn lemma_member_prefix(members: Seq<Member>, k: int)
    requires
        0 <= k <= members.len(),
    ensures
        is_prefix_at(member_calls(members), 0, member_calls(members.take(k))),
    decreases members.len() - k,
{
    if k == members.len() {
        assert(members.take(k) =~= members);
        assert(member_calls(members).subrange(0, member_calls(members).len() as int)
            =~= member_calls(members));
    } else {
        lemma_member_prefix(members, k + 1);
        lemma_member_take(members, k);
        let short = member_calls(members.take(k));
        let long = member_calls(members.take(k + 1));
        assert(long.subrange(0, short.len() as int) =~= short);
        lemma_prefix_trans(member_calls(members), 0, long, short);
    }
}

/// The next call after the first `k` struct operations.
proof fn lemma_member_next(s: Seq<Step>, pos: int, open: Step, members: Seq<Member>, k: int, p: int)
    requires
        is_prefix_at(s, pos, seq![open] + member_calls(members) + seq![Step::End]),
        0 <= k <= members.len(),
        p == pos + 1 + member_calls(members.take(k)).len(),
    ensures
        k < members.len() ==> p < s.len() && s[p] == member_mark(members[k]) && is_prefix_at(
            s,
            p + 1,
            member_tail(members[k]),
        ),
        k == members.len() ==> p < s.len() && s[p] == Step::End && p + 1 == pos + (seq![open]
            + member_calls(members) + seq![Step::End]).len(),
{
    let m = member_calls(members);
    lemma_prefix_concat(s, pos, seq![open] + m, seq![Step::End]);
    lemma_prefix_concat(s, pos, seq![open], m);
    lemma_member_prefix(members, k);
    if k < members.len() {
        lemma_member_prefix(members, k + 1);
        lemma_member_take(members, k);
        let mk = member_calls(members.take(k));
        let mark = member_mark(members[k]);
        lemma_prefix_trans(s, pos + 1, m, member_calls(members.take(k + 1)));
        lemma_prefix_concat(s, pos + 1, mk + seq![mark], member_tail(members[k]));
        lemma_prefix_concat(s, pos + 1, mk, seq![mark]);
        lemma_prefix_single(s, p, mark);
    } else {
        assert(members.take(k) =~= members);
        lemma_prefix_single(s, p, Step::End);
    }
}

/// Each operation of a closed list of map operations carries a closed node.
proof fn lemma_entries_closed_index(entries: Seq<Entry>, i: int)
    requires
        entries_closed(entries),
        0 <= i < entries.len(),
    ensures
        closed(entry_node(entries[i])),
    decreases entries.len(),
{
    if i < entries.len() - 1 {
        lemma_entries_closed_index(entries.subrange(0, entries.len() - 1), i);
    }
}

/// A closed list of map operations with one more closed operation.
proof fn lemma_entries_closed_push(entries: Seq<Entry>, e: Entry)
    requires
        entries_closed(entries),
        closed(entry_node(e)),
    ensures
        entries_closed(entries.push(e)),
{
    assert(entries.push(e).subrange(0, entries.len() as int) =~= entries);
}

/// Each field of a closed list of struct operations carries a closed node.
proof fn lemma_members_closed_index(members: Seq<Member>, i: int)
    requires
        members_closed(members),
        0 <= i < members.len(),
        members[i] is Field,
    ensures
        closed(members[i]->Field_1),
    decreases members.len(),
{
    if i < members.len() - 1 {
        lemma_members_closed_index(members.subrange(0, members.len() - 1), i);
    }
}

/// A closed list of struct operations with one more closed operation.
proof fn lemma_members_closed_push(members: Seq<Member>, m: Member)
    requires
        members_closed(members),
        m is Field ==> closed(m->Field_1),
    ensures
        members_closed(members.push(m)),
{
    assert(members.push(m).subrange(0, members.len() as int) =~= members);
}


/// Captures the sequence whose calls start at `pos`.
fn capture_sequence(
    calls: &Vec<Call>,
    pos: usize,
    len: Option<usize>,
) -> (r: Result<(Ast, usize), Error>)
    requires
        pos < calls.len(),
        steps(calls@)[pos as int] == Step::OpenSequence(len),
    ensures
        r matches Ok((a, q))
            ==> pos < q <= calls.len() && steps(calls@).subrange(pos as int, q as int)
            == calls_of(a@) && closed(a@),
        forall|n: Node|
            closed(n) && #[trigger] is_prefix_at(steps(calls@), pos as int, calls_of(n))
                ==> (r matches Ok((a, q))
                && a@ == n && q == pos + calls_of(n).len()),
        r matches Err(e) ==> is_malformed(e),
    decreases calls.len() - pos, 0int,
{
    let ghost s = steps(calls@);
    
    let mut acc = match Serializer::new().serialize_seq(len) {
        Ok(acc) => acc,
        Err(e) => return Err(e),
    };
    let mut p: usize = pos + 1;
    proof {
        assert(s.subrange(pos as int, p as int)
            =~= seq![Step::OpenSequence(len)] + marked_calls(acc@.1, Step::Element));
        assert forall|n: Node|
            closed(n) && #[trigger] is_prefix_at(s, pos as int, calls_of(n))
                implies n == Node::Sequence { len, elements: n->Sequence_elements } by {
            lemma_head(n);
        }
    }
    loop
        invariant
            pos < p <= calls.len(),
            s == steps(calls@),
            acc@.0 == len,
            all_closed(acc@.1),
            s.subrange(pos as int, p as int)
                == seq![Step::OpenSequence(len)] + marked_calls(acc@.1, Step::Element),
            forall|n: Node|
                closed(n) && #[trigger] is_prefix_at(s, pos as int, calls_of(n))
                    ==> (n == (Node::Sequence { len, elements: n->Sequence_elements })
                && acc@.1.len() <= n->Sequence_elements.len()
                    && acc@.1 == n->Sequence_elements.take(acc@.1.len() as int)
                && p == pos + 1 + marked_calls(acc@.1, Step::Element).len()),
        decreases calls.len() - p,
    {
        let ghost k = acc@.1.len() as int;
        if p >= calls.len() {
            proof {
                assert forall|n: Node|
                    closed(n) implies !is_prefix_at(s, pos as int, calls_of(n)) by {
                            if is_prefix_at(s, pos as int, calls_of(n)) {
                                lemma_marked_next(
                                    s,
                                    pos as int,
                                    Step::OpenSequence(len),
                                    n->Sequence_elements,
                                    Step::Element,
                                    k,
                                    p as int,
                                );
                            }
                        }
            }
            return Err(malformed());
        }
        assert(s[p as int] == calls@[p as int]@);
        match &calls[p] {
            Call::End => {
                let ghost values = acc@.1;
                let r = acc.end();
                proof {
                    assert(s.subrange(pos as int, p + 1)
                        =~= s.subrange(pos as int, p as int) + seq![Step::End]);
                    assert forall|n: Node|
                        closed(n) && #[trigger] is_prefix_at(s, pos as int, calls_of(n))
                            implies n == Node::Sequence { len, elements: values }
                                && p + 1 == pos + calls_of(n).len() by {
                        lemma_marked_next(
                            s,
                            pos as int,
                            Step::OpenSequence(len),
                            n->Sequence_elements,
                            Step::Element,
                            k,
                            p as int,
                        );
                        assert(values =~= n->Sequence_elements);
                    }
                }
                return match r {
                    Ok(a) => Ok((a, p + 1)),
                    Err(e) => Err(e),
                };
            },
            Call::Element => {
                let inner = capture_at(calls, p + 1);
                match inner {
                    Ok((v, q)) => {
                        let ghost before = acc@.1;
                        proof {
                            assert forall|n: Node|
                                closed(n) && #[trigger] is_prefix_at(s, pos as int, calls_of(n))
                                    implies (k < n->Sequence_elements.len()
                                        && v@ == n->Sequence_elements[k]) by {
                                lemma_marked_next(
                                    s,
                                    pos as int,
                                    Step::OpenSequence(len),
                                    n->Sequence_elements,
                                    Step::Element,
                                    k,
                                    p as int,
                                );
                                lemma_all_closed_index(n->Sequence_elements, k);
                            }
                        }
                        let _ = acc.serialize_element(Ok(v));
                        proof {
                            lemma_all_closed_push(before, v@);
                            lemma_marked_calls_push(before, v@, Step::Element);
                            assert(s.subrange(pos as int, q as int)
                                =~= s.subrange(pos as int, p as int)
                                    + seq![Step::Element]
                                    + s.subrange(p + 1, q as int));
                            assert forall|n: Node|
                                closed(n) && #[trigger] is_prefix_at(s, pos as int, calls_of(n))
                                    implies acc@.1 == n->Sequence_elements.take(k + 1) by {
                                assert(acc@.1 =~= n->Sequence_elements.take(k + 1));
                            }
                        }
                        p = q;
                    },
                    Err(e) => {
                        proof {
                            assert forall|n: Node|
                                closed(n) implies !is_prefix_at(s, pos as int, calls_of(n)) by {
                                if is_prefix_at(s, pos as int, calls_of(n)) {
                                    lemma_marked_next(
                                        s,
                                        pos as int,
                                        Step::OpenSequence(len),
                                        n->Sequence_elements,
                                        Step::Element,
                                        k,
                                        p as int,
                                    );
                                    lemma_all_closed_index(n->Sequence_elements, k);
                                }
                            }
                        }
                        return Err(e);
                    },
                }
            },
            _ => {
                proof {
                    assert forall|n: Node|
                        closed(n) implies !is_prefix_at(s, pos as int, calls_of(n)) by {
                                if is_prefix_at(s, pos as int, calls_of(n)) {
                                    lemma_marked_next(
                                        s,
                                        pos as int,
                                        Step::OpenSequence(len),
                                        n->Sequence_elements,
                                        Step::Element,
                                        k,
                                        p as int,
                                    );
                                }
                            }
                }
                return Err(malformed());
            },
        }
    }
}

/// Captures the tuple whose calls start at `pos`.
fn capture_tuple(calls: &Vec<Call>, pos: usize, len: usize) -> (r: Result<(Ast, usize), Error>)
    requires
        pos < calls.len(),
        steps(calls@)[pos as int] == Step::OpenTuple(len),
    ensures
        r matches Ok((a, q))
            ==> pos < q <= calls.len() && steps(calls@).subrange(pos as int, q as int)
            == calls_of(a@) && closed(a@),
        forall|n: Node|
            closed(n) && #[trigger] is_prefix_at(steps(calls@), pos as int, calls_of(n))
                ==> (r matches Ok((a, q))
                && a@ == n && q == pos + calls_of(n).len()),
        r matches Err(e) ==> is_malformed(e),
    decreases calls.len() - pos, 0int,
{
    let ghost s = steps(calls@);
    
    let mut acc = match Serializer::new().serialize_tuple(len) {
        Ok(acc) => acc,
        Err(e) => return Err(e),
    };
    let mut p: usize = pos + 1;
    proof {
        assert(s.subrange(pos as int, p as int)
            =~= seq![Step::OpenTuple(len)] + marked_calls(acc@.1, Step::Element));
        assert forall|n: Node|
            closed(n) && #[trigger] is_prefix_at(s, pos as int, calls_of(n))
                implies n == Node::Tuple { len, elements: n->Tuple_elements } by {
            lemma_head(n);
        }
    }
    loop
        invariant
            pos < p <= calls.len(),
            s == steps(calls@),
            acc@.0 == len,
            all_closed(acc@.1),
            s.subrange(pos as int, p as int)
                == seq![Step::OpenTuple(len)] + marked_calls(acc@.1, Step::Element),
            forall|n: Node|
                closed(n) && #[trigger] is_prefix_at(s, pos as int, calls_of(n))
                    ==> (n == (Node::Tuple { len, elements: n->Tuple_elements })
                && acc@.1.len() <= n->Tuple_elements.len()
                    && acc@.1 == n->Tuple_elements.take(acc@.1.len() as int)
                && p == pos + 1 + marked_calls(acc@.1, Step::Element).len()),
        decreases calls.len() - p,
    {
        let ghost k = acc@.1.len() as int;
        if p >= calls.len() {
            proof {
                assert forall|n: Node|
                    closed(n) implies !is_prefix_at(s, pos as int, calls_of(n)) by {
                            if is_prefix_at(s, pos as int, calls_of(n)) {
                                lemma_marked_next(
                                    s,
                                    pos as int,
                                    Step::OpenTuple(len),
                                    n->Tuple_elements,
                                    Step::Element,
                                    k,
                                    p as int,
                                );
                            }
                        }
            }
            return Err(malformed());
        }
        assert(s[p as int] == calls@[p as int]@);
        match &calls[p] {
            Call::End => {
                let ghost values = acc@.1;
                let r = acc.end();
                proof {
                    assert(s.subrange(pos as int, p + 1)
                        =~= s.subrange(pos as int, p as int) + seq![Step::End]);
                    assert forall|n: Node|
                        closed(n) && #[trigger] is_prefix_at(s, pos as int, calls_of(n))
                            implies n == Node::Tuple { len, elements: values }
                                && p + 1 == pos + calls_of(n).len() by {
                        lemma_marked_next(
                            s,
                            pos as int,
                            Step::OpenTuple(len),
                            n->Tuple_elements,
                            Step::Element,
                            k,
                            p as int,
                        );
                        assert(values =~= n->Tuple_elements);
                    }
                }
                return match r {
                    Ok(a) => Ok((a, p + 1)),
                    Err(e) => Err(e),
                };
            },
            Call::Element => {
                let inner = capture_at(calls, p + 1);
                match inner {
                    Ok((v, q)) => {
                        let ghost before = acc@.1;
                        proof {
                            assert forall|n: Node|
                                closed(n) && #[trigger] is_prefix_at(s, pos as int, calls_of(n))
                                    implies (k < n->Tuple_elements.len()
                                        && v@ == n->Tuple_elements[k]) by {
                                lemma_marked_next(
                                    s,
                                    pos as int,
                                    Step::OpenTuple(len),
                                    n->Tuple_elements,
                                    Step::Element,
                                    k,
                                    p as int,
                                );
                                lemma_all_closed_index(n->Tuple_elements, k);
                            }
                        }
                        let _ = acc.serialize_element(Ok(v));
                        proof {
                            lemma_all_closed_push(before, v@);
                            lemma_marked_calls_push(before, v@, Step::Element);
                            assert(s.subrange(pos as int, q as int)
                                =~= s.subrange(pos as int, p as int)
                                    + seq![Step::Element]
                                    + s.subrange(p + 1, q as int));
                            assert forall|n: Node|
                                closed(n) && #[trigger] is_prefix_at(s, pos as int, calls_of(n))
                                    implies acc@.1 == n->Tuple_elements.take(k + 1) by {
                                assert(acc@.1 =~= n->Tuple_elements.take(k + 1));
                            }
                        }
                        p = q;
                    },
                    Err(e) => {
                        proof {
                            assert forall|n: Node|
                                closed(n) implies !is_prefix_at(s, pos as int, calls_of(n)) by {
                                if is_prefix_at(s, pos as int, calls_of(n)) {
                                    lemma_marked_next(
                                        s,
                                        pos as int,
                                        Step::OpenTuple(len),
                                        n->Tuple_elements,
                                        Step::Element,
                                        k,
                                        p as int,
                                    );
                                    lemma_all_closed_index(n->Tuple_elements, k);
                                }
                            }
                        }
                        return Err(e);
                    },
                }
            },
            _ => {
                proof {
                    assert forall|n: Node|
                        closed(n) implies !is_prefix_at(s, pos as int, calls_of(n)) by {
                                if is_prefix_at(s, pos as int, calls_of(n)) {
                                    lemma_marked_next(
                                        s,
                                        pos as int,
                                        Step::OpenTuple(len),
                                        n->Tuple_elements,
                                        Step::Element,
                                        k,
                                        p as int,
                                    );
                                }
                            }
                }
                return Err(malformed());
            },
        }
    }
}

/// Captures the tuple struct whose calls start at `pos`.
fn capture_tuple_struct(
    calls: &Vec<Call>,
    pos: usize,
    name: String,
    len: usize,
) -> (r: Result<(Ast, usize), Error>)
    requires
        pos < calls.len(),
        steps(calls@)[pos as int] == (Step::OpenTupleStruct { name: name@, len }),
    ensures
        r matches Ok((a, q))
            ==> pos < q <= calls.len() && steps(calls@).subrange(pos as int, q as int)
            == calls_of(a@) && closed(a@),
        forall|n: Node|
            closed(n) && #[trigger] is_prefix_at(steps(calls@), pos as int, calls_of(n))
                ==> (r matches Ok((a, q))
                && a@ == n && q == pos + calls_of(n).len()),
        r matches Err(e) ==> is_malformed(e),
    decreases calls.len() - pos, 0int,
{
    let ghost s = steps(calls@);
    let ghost name_v = name@;
    let mut acc = match Serializer::new().serialize_tuple_struct(name, len) {
        Ok(acc) => acc,
        Err(e) => return Err(e),
    };
    let mut p: usize = pos + 1;
    proof {
        assert(s.subrange(pos as int, p as int)
            =~= seq![Step::OpenTupleStruct { name: name_v, len }]
                + marked_calls(acc@.2, Step::Field));
        assert forall|n: Node|
            closed(n) && #[trigger] is_prefix_at(s, pos as int, calls_of(n))
                implies n
                    == Node::TupleStruct { name: name_v, len, fields: n->TupleStruct_fields } by {
            lemma_head(n);
        }
    }
    loop
        invariant
            pos < p <= calls.len(),
            s == steps(calls@),
            acc@.0 == name_v && acc@.1 == len,
            all_closed(acc@.2),
            s.subrange(pos as int, p as int)
                == seq![Step::OpenTupleStruct { name: name_v, len }]
                    + marked_calls(acc@.2, Step::Field),
            forall|n: Node|
                closed(n) && #[trigger] is_prefix_at(s, pos as int, calls_of(n))
                    ==> (n == (Node::TupleStruct {
                        name: name_v,
                        len,
                        fields: n->TupleStruct_fields,
                    })
                && acc@.2.len() <= n->TupleStruct_fields.len()
                    && acc@.2 == n->TupleStruct_fields.take(acc@.2.len() as int)
                && p == pos + 1 + marked_calls(acc@.2, Step::Field).len()),
        decreases calls.len() - p,
    {
        let ghost k = acc@.2.len() as int;
        if p >= calls.len() {
            proof {
                assert forall|n: Node|
                    closed(n) implies !is_prefix_at(s, pos as int, calls_of(n)) by {
                            if is_prefix_at(s, pos as int, calls_of(n)) {
                                lemma_marked_next(
                                    s,
                                    pos as int,
                                    Step::OpenTupleStruct { name: name_v, len },
                                    n->TupleStruct_fields,
                                    Step::Field,
                                    k,
                                    p as int,
                                );
                            }
                        }
            }
            return Err(malformed());
        }
        assert(s[p as int] == calls@[p as int]@);
        match &calls[p] {
            Call::End => {
                let ghost values = acc@.2;
                let r = acc.end();
                proof {
                    assert(s.subrange(pos as int, p + 1)
                        =~= s.subrange(pos as int, p as int) + seq![Step::End]);
                    assert forall|n: Node|
                        closed(n) && #[trigger] is_prefix_at(s, pos as int, calls_of(n))
                            implies n == Node::TupleStruct { name: name_v, len, fields: values }
                                && p + 1 == pos + calls_of(n).len() by {
                        lemma_marked_next(
                            s,
                            pos as int,
                            Step::OpenTupleStruct { name: name_v, len },
                            n->TupleStruct_fields,
                            Step::Field,
                            k,
                            p as int,
                        );
                        assert(values =~= n->TupleStruct_fields);
                    }
                }
                return match r {
                    Ok(a) => Ok((a, p + 1)),
                    Err(e) => Err(e),
                };
            },
            Call::Field => {
                let inner = capture_at(calls, p + 1);
                match inner {
                    Ok((v, q)) => {
                        let ghost before = acc@.2;
                        proof {
                            assert forall|n: Node|
                                closed(n) && #[trigger] is_prefix_at(s, pos as int, calls_of(n))
                                    implies (k < n->TupleStruct_fields.len()
                                        && v@ == n->TupleStruct_fields[k]) by {
                                lemma_marked_next(
                                    s,
                                    pos as int,
                                    Step::OpenTupleStruct { name: name_v, len },
                                    n->TupleStruct_fields,
                                    Step::Field,
                                    k,
                                    p as int,
                                );
                                lemma_all_closed_index(n->TupleStruct_fields, k);
                            }
                        }
                        let _ = acc.serialize_field(Ok(v));
                        proof {
                            lemma_all_closed_push(before, v@);
                            lemma_marked_calls_push(before, v@, Step::Field);
                            assert(s.subrange(pos as int, q as int)
                                =~= s.subrange(pos as int, p as int)
                                    + seq![Step::Field]
                                    + s.subrange(p + 1, q as int));
                            assert forall|n: Node|
                                closed(n) && #[trigger] is_prefix_at(s, pos as int, calls_of(n))
                                    implies acc@.2 == n->TupleStruct_fields.take(k + 1) by {
                                assert(acc@.2 =~= n->TupleStruct_fields.take(k + 1));
                            }
                        }
                        p = q;
                    },
                    Err(e) => {
                        proof {
                            assert forall|n: Node|
                                closed(n) implies !is_prefix_at(s, pos as int, calls_of(n)) by {
                                if is_prefix_at(s, pos as int, calls_of(n)) {
                                    lemma_marked_next(
                                        s,
                                        pos as int,
                                        Step::OpenTupleStruct { name: name_v, len },
                                        n->TupleStruct_fields,
                                        Step::Field,
                                        k,
                                        p as int,
                                    );
                                    lemma_all_closed_index(n->TupleStruct_fields, k);
                                }
                            }
                        }
                        return Err(e);
                    },
                }
            },
            _ => {
                proof {
                    assert forall|n: Node|
                        closed(n) implies !is_prefix_at(s, pos as int, calls_of(n)) by {
                                if is_prefix_at(s, pos as int, calls_of(n)) {
                                    lemma_marked_next(
                                        s,
                                        pos as int,
                                        Step::OpenTupleStruct { name: name_v, len },
                                        n->TupleStruct_fields,
                                        Step::Field,
                                        k,
                                        p as int,
                                    );
                                }
                            }
                }
                return Err(malformed());
            },
        }
    }
}

/// Captures the tuple variant whose calls start at `pos`.
fn capture_tuple_variant(
    calls: &Vec<Call>,
    pos: usize,
    name: String,
    variant_index: u32,
    variant: String,
    len: usize,
) -> (r: Result<(Ast, usize), Error>)
    requires
        pos < calls.len(),
        steps(calls@)[pos as int]
            == (Step::OpenTupleVariant { name: name@, variant_index, variant: variant@, len }),
    ensures
        r matches Ok((a, q))
            ==> pos < q <= calls.len() && steps(calls@).subrange(pos as int, q as int)
            == calls_of(a@) && closed(a@),
        forall|n: Node|
            closed(n) && #[trigger] is_prefix_at(steps(calls@), pos as int, calls_of(n))
                ==> (r matches Ok((a, q))
                && a@ == n && q == pos + calls_of(n).len()),
        r matches Err(e) ==> is_malformed(e),
    decreases calls.len() - pos, 0int,
{
    let ghost s = steps(calls@);
    let ghost name_v = name@;
    let ghost variant_v = variant@;
    let mut acc = match Serializer::new().serialize_tuple_variant(
        name,
        variant_index,
        variant,
        len,
    ) {
        Ok(acc) => acc,
        Err(e) => return Err(e),
    };
    let mut p: usize = pos + 1;
    proof {
        assert(s.subrange(pos as int, p as int)
            =~= seq![Step::OpenTupleVariant {
                name: name_v,
                variant_index,
                variant: variant_v,
                len,
            }]
                + marked_calls(acc@.4, Step::Field));
        assert forall|n: Node|
            closed(n) && #[trigger] is_prefix_at(s, pos as int, calls_of(n))
                implies n
                    == Node::TupleVariant {
                        name: name_v,
                        variant_index,
                        variant: variant_v,
                        len,
                        fields: n->TupleVariant_fields,
                    } by {
            lemma_head(n);
        }
    }
    loop
        invariant
            pos < p <= calls.len(),
            s == steps(calls@),
            acc@.0 == name_v && acc@.1 == variant_index && acc@.2 == variant_v && acc@.3 == len,
            all_closed(acc@.4),
            s.subrange(pos as int, p as int)
                == seq![Step::OpenTupleVariant {
                    name: name_v,
                    variant_index,
                    variant: variant_v,
                    len,
                }]
                    + marked_calls(acc@.4, Step::Field),
            forall|n: Node|
                closed(n) && #[trigger] is_prefix_at(s, pos as int, calls_of(n))
                    ==> (n == (Node::TupleVariant {
                        name: name_v,
                        variant_index,
                        variant: variant_v,
                        len,
                        fields: n->TupleVariant_fields,
                    })
                && acc@.4.len() <= n->TupleVariant_fields.len()
                    && acc@.4 == n->TupleVariant_fields.take(acc@.4.len() as int)
                && p == pos + 1 + marked_calls(acc@.4, Step::Field).len()),
        decreases calls.len() - p,
    {
        let ghost k = acc@.4.len() as int;
        if p >= calls.len() {
            proof {
                assert forall|n: Node|
                    closed(n) implies !is_prefix_at(s, pos as int, calls_of(n)) by {
                            if is_prefix_at(s, pos as int, calls_of(n)) {
                                lemma_marked_next(
                                    s,
                                    pos as int,
                                    Step::OpenTupleVariant {
                                        name: name_v,
                                        variant_index,
                                        variant: variant_v,
                                        len,
                                    },
                                    n->TupleVariant_fields,
                                    Step::Field,
                                    k,
                                    p as int,
                                );
                            }
                        }
            }
            return Err(malformed());
        }
        assert(s[p as int] == calls@[p as int]@);
        match &calls[p] {
            Call::End => {
                let ghost values = acc@.4;
                let r = acc.end();
                proof {
                    assert(s.subrange(pos as int, p + 1)
                        =~= s.subrange(pos as int, p as int) + seq![Step::End]);
                    assert forall|n: Node|
                        closed(n) && #[trigger] is_prefix_at(s, pos as int, calls_of(n))
                            implies n
                                == Node::TupleVariant {
                                    name: name_v,
                                    variant_index,
                                    variant: variant_v,
                                    len,
                                    fields: values,
                                }
                                && p + 1 == pos + calls_of(n).len() by {
                        lemma_marked_next(
                            s,
                            pos as int,
                            Step::OpenTupleVariant {
                                name: name_v,
                                variant_index,
                                variant: variant_v,
                                len,
                            },
                            n->TupleVariant_fields,
                            Step::Field,
                            k,
                            p as int,
                        );
                        assert(values =~= n->TupleVariant_fields);
                    }
                }
                return match r {
                    Ok(a) => Ok((a, p + 1)),
                    Err(e) => Err(e),
                };
            },
            Call::Field => {
                let inner = capture_at(calls, p + 1);
                match inner {
                    Ok((v, q)) => {
                        let ghost before = acc@.4;
                        proof {
                            assert forall|n: Node|
                                closed(n) && #[trigger] is_prefix_at(s, pos as int, calls_of(n))
                                    implies (k < n->TupleVariant_fields.len()
                                        && v@ == n->TupleVariant_fields[k]) by {
                                lemma_marked_next(
                                    s,
                                    pos as int,
                                    Step::OpenTupleVariant {
                                        name: name_v,
                                        variant_index,
                                        variant: variant_v,
                                        len,
                                    },
                                    n->TupleVariant_fields,
                                    Step::Field,
                                    k,
                                    p as int,
                                );
                                lemma_all_closed_index(n->TupleVariant_fields, k);
                            }
                        }
                        let _ = acc.serialize_field(Ok(v));
                        proof {
                            lemma_all_closed_push(before, v@);
                            lemma_marked_calls_push(before, v@, Step::Field);
                            assert(s.subrange(pos as int, q as int)
                                =~= s.subrange(pos as int, p as int)
                                    + seq![Step::Field]
                                    + s.subrange(p + 1, q as int));
                            assert forall|n: Node|
                                closed(n) && #[trigger] is_prefix_at(s, pos as int, calls_of(n))
                                    implies acc@.4 == n->TupleVariant_fields.take(k + 1) by {
                                assert(acc@.4 =~= n->TupleVariant_fields.take(k + 1));
                            }
                        }
                        p = q;
                    },
                    Err(e) => {
                        proof {
                            assert forall|n: Node|
                                closed(n) implies !is_prefix_at(s, pos as int, calls_of(n)) by {
                                if is_prefix_at(s, pos as int, calls_of(n)) {
                                    lemma_marked_next(
                                        s,
                                        pos as int,
                                        Step::OpenTupleVariant {
                                            name: name_v,
                                            variant_index,
                                            variant: variant_v,
                                            len,
                                        },
                                        n->TupleVariant_fields,
                                        Step::Field,
                                        k,
                                        p as int,
                                    );
                                    lemma_all_closed_index(n->TupleVariant_fields, k);
                                }
                            }
                        }
                        return Err(e);
                    },
                }
            },
            _ => {
                proof {
                    assert forall|n: Node|
                        closed(n) implies !is_prefix_at(s, pos as int, calls_of(n)) by {
                                if is_prefix_at(s, pos as int, calls_of(n)) {
                                    lemma_marked_next(
                                        s,
                                        pos as int,
                                        Step::OpenTupleVariant {
                                            name: name_v,
                                            variant_index,
                                            variant: variant_v,
                                            len,
                                        },
                                        n->TupleVariant_fields,
                                        Step::Field,
                                        k,
                                        p as int,
                                    );
                                }
                            }
                }
                return Err(malformed());
            },
        }
    }
}

/// Captures the map whose calls start at `pos`.
fn capture_mapping(
    calls: &Vec<Call>,
    pos: usize,
    len: Option<usize>,
) -> (r: Result<(Ast, usize), Error>)
    requires
        pos < calls.len(),
        steps(calls@)[pos as int] == Step::OpenMapping(len),
    ensures
        r matches Ok((a, q))
            ==> pos < q <= calls.len() && steps(calls@).subrange(pos as int, q as int)
            == calls_of(a@) && closed(a@),
        forall|n: Node|
            closed(n) && #[trigger] is_prefix_at(steps(calls@), pos as int, calls_of(n))
                ==> (r matches Ok((a, q))
                && a@ == n && q == pos + calls_of(n).len()),
        r matches Err(e) ==> is_malformed(e),
    decreases calls.len() - pos, 0int,
{
    let ghost s = steps(calls@);
    
    let mut acc = match Serializer::new().serialize_map(len) {
        Ok(acc) => acc,
        Err(e) => return Err(e),
    };
    let mut p: usize = pos + 1;
    proof {
        assert(s.subrange(pos as int, p as int)
            =~= seq![Step::OpenMapping(len)] + entry_calls(acc@.1));
        assert forall|n: Node|
            closed(n) && #[trigger] is_prefix_at(s, pos as int, calls_of(n))
                implies n == Node::Mapping { len, entries: n->Mapping_entries } by {
            lemma_head(n);
        }
    }
    loop
        invariant
            pos < p <= calls.len(),
            s == steps(calls@),
            acc@.0 == len,
            entries_closed(acc@.1),
            s.subrange(pos as int, p as int) == seq![Step::OpenMapping(len)] + entry_calls(acc@.1),
            forall|n: Node|
                closed(n) && #[trigger] is_prefix_at(s, pos as int, calls_of(n))
                    ==> (n == (Node::Mapping { len, entries: n->Mapping_entries })
                && acc@.1.len() <= n->Mapping_entries.len()
                    && acc@.1 == n->Mapping_entries.take(acc@.1.len() as int)
                && p == pos + 1 + entry_calls(acc@.1).len()),
        decreases calls.len() - p,
    {
        let ghost k = acc@.1.len() as int;
        if p >= calls.len() {
            proof {
                assert forall|n: Node|
                    closed(n) implies !is_prefix_at(s, pos as int, calls_of(n)) by {
                    if is_prefix_at(s, pos as int, calls_of(n)) {
                        lemma_entry_next(
                            s,
                            pos as int,
                            Step::OpenMapping(len),
                            n->Mapping_entries,
                            k,
                            p as int,
                        );
                    }
                }
            }
            return Err(malformed());
        }
        assert(s[p as int] == calls@[p as int]@);
        match &calls[p] {
            Call::End => {
                let ghost values = acc@.1;
                let r = acc.end();
                proof {
                    assert(s.subrange(pos as int, p + 1)
                        =~= s.subrange(pos as int, p as int) + seq![Step::End]);
                    assert forall|n: Node|
                        closed(n) && #[trigger] is_prefix_at(s, pos as int, calls_of(n))
                            implies n == Node::Mapping { len, entries: values }
                                && p + 1 == pos + calls_of(n).len() by {
                        lemma_entry_next(
                            s,
                            pos as int,
                            Step::OpenMapping(len),
                            n->Mapping_entries,
                            k,
                            p as int,
                        );
                        assert(values =~= n->Mapping_entries);
                    }
                }
                return match r {
                    Ok(a) => Ok((a, p + 1)),
                    Err(e) => Err(e),
                };
            },
            Call::Key => {
                let inner = capture_at(calls, p + 1);
                match inner {
                    Ok((v, q)) => {
                        let ghost before = acc@.1;
                        let ghost e = Entry::Key(v@);
                        proof {
                            assert forall|n: Node|
                                closed(n) && #[trigger] is_prefix_at(s, pos as int, calls_of(n))
                                    implies (k < n->Mapping_entries.len()
                                        && n->Mapping_entries[k] == e) by {
                                lemma_entry_next(
                                    s,
                                    pos as int,
                                    Step::OpenMapping(len),
                                    n->Mapping_entries,
                                    k,
                                    p as int,
                                );
                                lemma_entries_closed_index(n->Mapping_entries, k);
                            }
                        }
                        let _ = acc.serialize_key(Ok(v));
                        proof {
                            lemma_entries_closed_push(before, e);
                            lemma_entry_calls_push(before, e);
                            assert(s.subrange(pos as int, q as int)
                                =~= s.subrange(pos as int, p as int)
                                    + (seq![Step::Key] + s.subrange(p + 1, q as int)));
                            assert forall|n: Node|
                                closed(n) && #[trigger] is_prefix_at(s, pos as int, calls_of(n))
                                    implies acc@.1 == n->Mapping_entries.take(k + 1) by {
                                assert(acc@.1 =~= n->Mapping_entries.take(k + 1));
                            }
                        }
                        p = q;
                    },
                    Err(e) => {
                        proof {
                            assert forall|n: Node|
                                closed(n) implies !is_prefix_at(s, pos as int, calls_of(n)) by {
                                if is_prefix_at(s, pos as int, calls_of(n)) {
                                    lemma_entry_next(
                                        s,
                                        pos as int,
                                        Step::OpenMapping(len),
                                        n->Mapping_entries,
                                        k,
                                        p as int,
                                    );
                                    lemma_entries_closed_index(n->Mapping_entries, k);
                                }
                            }
                        }
                        return Err(e);
                    },
                }
            },
            Call::Value => {
                let inner = capture_at(calls, p + 1);
                match inner {
                    Ok((v, q)) => {
                        let ghost before = acc@.1;
                        let ghost e = Entry::Value(v@);
                        proof {
                            assert forall|n: Node|
                                closed(n) && #[trigger] is_prefix_at(s, pos as int, calls_of(n))
                                    implies (k < n->Mapping_entries.len()
                                        && n->Mapping_entries[k] == e) by {
                                lemma_entry_next(
                                    s,
                                    pos as int,
                                    Step::OpenMapping(len),
                                    n->Mapping_entries,
                                    k,
                                    p as int,
                                );
                                lemma_entries_closed_index(n->Mapping_entries, k);
                            }
                        }
                        let _ = acc.serialize_value(Ok(v));
                        proof {
                            lemma_entries_closed_push(before, e);
                            lemma_entry_calls_push(before, e);
                            assert(s.subrange(pos as int, q as int)
                                =~= s.subrange(pos as int, p as int)
                                    + (seq![Step::Value] + s.subrange(p + 1, q as int)));
                            assert forall|n: Node|
                                closed(n) && #[trigger] is_prefix_at(s, pos as int, calls_of(n))
                                    implies acc@.1 == n->Mapping_entries.take(k + 1) by {
                                assert(acc@.1 =~= n->Mapping_entries.take(k + 1));
                            }
                        }
                        p = q;
                    },
                    Err(e) => {
                        proof {
                            assert forall|n: Node|
                                closed(n) implies !is_prefix_at(s, pos as int, calls_of(n)) by {
                                if is_prefix_at(s, pos as int, calls_of(n)) {
                                    lemma_entry_next(
                                        s,
                                        pos as int,
                                        Step::OpenMapping(len),
                                        n->Mapping_entries,
                                        k,
                                        p as int,
                                    );
                                    lemma_entries_closed_index(n->Mapping_entries, k);
                                }
                            }
                        }
                        return Err(e);
                    },
                }
            },
            _ => {
                proof {
                    assert forall|n: Node|
                        closed(n) implies !is_prefix_at(s, pos as int, calls_of(n)) by {
                        if is_prefix_at(s, pos as int, calls_of(n)) {
                            lemma_entry_next(
                                s,
                                pos as int,
                                Step::OpenMapping(len),
                                n->Mapping_entries,
                                k,
                                p as int,
                            );
                        }
                    }
                }
                return Err(malformed());
            },
        }
    }
}

/// Captures the struct whose calls start at `pos`.
fn capture_struct(
    calls: &Vec<Call>,
    pos: usize,
    name: String,
    len: usize,
) -> (r: Result<(Ast, usize), Error>)
    requires
        pos < calls.len(),
        steps(calls@)[pos as int] == (Step::OpenStruct { name: name@, len }),
    ensures
        r matches Ok((a, q))
            ==> pos < q <= calls.len() && steps(calls@).subrange(pos as int, q as int)
            == calls_of(a@) && closed(a@),
        forall|n: Node|
            closed(n) && #[trigger] is_prefix_at(steps(calls@), pos as int, calls_of(n))
                ==> (r matches Ok((a, q))
                && a@ == n && q == pos + calls_of(n).len()),
        r matches Err(e) ==> is_malformed(e),
    decreases calls.len() - pos, 0int,
{
    let ghost s = steps(calls@);
    let ghost name_v = name@;
    let mut acc = match Serializer::new().serialize_struct(name, len) {
        Ok(acc) => acc,
        Err(e) => return Err(e),
    };
    let mut p: usize = pos + 1;
    proof {
        assert(s.subrange(pos as int, p as int)
            =~= seq![Step::OpenStruct { name: name_v, len }] + member_calls(acc@.2));
        assert forall|n: Node|
            closed(n) && #[trigger] is_prefix_at(s, pos as int, calls_of(n))
                implies n == Node::Struct { name: name_v, len, members: n->Struct_members } by {
            lemma_head(n);
        }
    }
    loop
        invariant
            pos < p <= calls.len(),
            s == steps(calls@),
            acc@.0 == name_v && acc@.1 == len,
            members_closed(acc@.2),
            s.subrange(pos as int, p as int)
                == seq![Step::OpenStruct { name: name_v, len }] + member_calls(acc@.2),
            forall|n: Node|
                closed(n) && #[trigger] is_prefix_at(s, pos as int, calls_of(n))
                    ==> (n == (Node::Struct { name: name_v, len, members: n->Struct_members })
                && acc@.2.len() <= n->Struct_members.len()
                    && acc@.2 == n->Struct_members.take(acc@.2.len() as int)
                && p == pos + 1 + member_calls(acc@.2).len()),
        decreases calls.len() - p,
    {
        let ghost k = acc@.2.len() as int;
        if p >= calls.len() {
            proof {
                assert forall|n: Node|
                    closed(n) implies !is_prefix_at(s, pos as int, calls_of(n)) by {
                    if is_prefix_at(s, pos as int, calls_of(n)) {
                        lemma_member_next(
                            s,
                            pos as int,
                            Step::OpenStruct { name: name_v, len },
                            n->Struct_members,
                            k,
                            p as int,
                        );
                    }
                }
            }
            return Err(malformed());
        }
        assert(s[p as int] == calls@[p as int]@);
        match &calls[p] {
            Call::End => {
                let ghost values = acc@.2;
                let r = acc.end();
                proof {
                    assert(s.subrange(pos as int, p + 1)
                        =~= s.subrange(pos as int, p as int) + seq![Step::End]);
                    assert forall|n: Node|
                        closed(n) && #[trigger] is_prefix_at(s, pos as int, calls_of(n))
                            implies n == Node::Struct { name: name_v, len, members: values }
                                && p + 1 == pos + calls_of(n).len() by {
                        lemma_member_next(
                            s,
                            pos as int,
                            Step::OpenStruct { name: name_v, len },
                            n->Struct_members,
                            k,
                            p as int,
                        );
                        assert(values =~= n->Struct_members);
                    }
                }
                return match r {
                    Ok(a) => Ok((a, p + 1)),
                    Err(e) => Err(e),
                };
            },
            Call::NamedField(key) => {
                let inner = capture_at(calls, p + 1);
                match inner {
                    Ok((v, q)) => {
                        let ghost before = acc@.2;
                        let ghost m = Member::Field(key@, v@);
                        proof {
                            assert forall|n: Node|
                                closed(n) && #[trigger] is_prefix_at(s, pos as int, calls_of(n))
                                    implies (k < n->Struct_members.len()
                                        && n->Struct_members[k] == m) by {
                                lemma_member_next(
                                    s,
                                    pos as int,
                                    Step::OpenStruct { name: name_v, len },
                                    n->Struct_members,
                                    k,
                                    p as int,
                                );
                                lemma_members_closed_index(n->Struct_members, k);
                            }
                        }
                        let _ = acc.serialize_field(key.clone(), Ok(v));
                        proof {
                            lemma_members_closed_push(before, m);
                            lemma_member_calls_push(before, m);
                            assert(s.subrange(pos as int, q as int)
                                =~= s.subrange(pos as int, p as int)
                                    + (seq![Step::NamedField(key@)] + s.subrange(p + 1, q as int)));
                            assert forall|n: Node|
                                closed(n) && #[trigger] is_prefix_at(s, pos as int, calls_of(n))
                                    implies acc@.2 == n->Struct_members.take(k + 1) by {
                                assert(acc@.2 =~= n->Struct_members.take(k + 1));
                            }
                        }
                        p = q;
                    },
                    Err(e) => {
                        proof {
                            assert forall|n: Node|
                                closed(n) implies !is_prefix_at(s, pos as int, calls_of(n)) by {
                                if is_prefix_at(s, pos as int, calls_of(n)) {
                                    lemma_member_next(
                                        s,
                                        pos as int,
                                        Step::OpenStruct { name: name_v, len },
                                        n->Struct_members,
                                        k,
                                        p as int,
                                    );
                                    lemma_members_closed_index(n->Struct_members, k);
                                }
                            }
                        }
                        return Err(e);
                    },
                }
            },
            Call::SkipField(key) => {
                let ghost before = acc@.2;
                let ghost m = Member::Skip(key@);
                proof {
                    assert forall|n: Node|
                        closed(n) && #[trigger] is_prefix_at(s, pos as int, calls_of(n))
                            implies (k < n->Struct_members.len() && n->Struct_members[k] == m) by {
                        lemma_member_next(
                            s,
                            pos as int,
                            Step::OpenStruct { name: name_v, len },
                            n->Struct_members,
                            k,
                            p as int,
                        );
                    }
                }
                let _ = acc.skip_field(key.clone());
                proof {
                    lemma_members_closed_push(before, m);
                    lemma_member_calls_push(before, m);
                    assert(s.subrange(pos as int, p + 1)
                        =~= s.subrange(pos as int, p as int) + seq![Step::SkipField(key@)]);
                    assert forall|n: Node|
                        closed(n) && #[trigger] is_prefix_at(s, pos as int, calls_of(n))
                            implies acc@.2 == n->Struct_members.take(k + 1) by {
                        assert(acc@.2 =~= n->Struct_members.take(k + 1));
                    }
                }
                p = p + 1;
            },
            _ => {
                proof {
                    assert forall|n: Node|
                        closed(n) implies !is_prefix_at(s, pos as int, calls_of(n)) by {
                        if is_prefix_at(s, pos as int, calls_of(n)) {
                            lemma_member_next(
                                s,
                                pos as int,
                                Step::OpenStruct { name: name_v, len },
                                n->Struct_members,
                                k,
                                p as int,
                            );
                        }
                    }
                }
                return Err(malformed());
            },
        }
    }
}

/// Captures the struct variant whose calls start at `pos`.
fn capture_struct_variant(
    calls: &Vec<Call>,
    pos: usize,
    name: String,
    variant_index: u32,
    variant: String,
    len: usize,
) -> (r: Result<(Ast, usize), Error>)
    requires
        pos < calls.len(),
        steps(calls@)[pos as int]
            == (Step::OpenStructVariant { name: name@, variant_index, variant: variant@, len }),
    ensures
        r matches Ok((a, q))
            ==> pos < q <= calls.len() && steps(calls@).subrange(pos as int, q as int)
            == calls_of(a@) && closed(a@),
        forall|n: Node|
            closed(n) && #[trigger] is_prefix_at(steps(calls@), pos as int, calls_of(n))
                ==> (r matches Ok((a, q))
                && a@ == n && q == pos + calls_of(n).len()),
        r matches Err(e) ==> is_malformed(e),
    decreases calls.len() - pos, 0int,
{
    let ghost s = steps(calls@);
    let ghost name_v = name@;
    let ghost variant_v = variant@;
    let mut acc = match Serializer::new().serialize_struct_variant(
        name,
        variant_index,
        variant,
        len,
    ) {
        Ok(acc) => acc,
        Err(e) => return Err(e),
    };
    let mut p: usize = pos + 1;
    proof {
        assert(s.subrange(pos as int, p as int)
            =~= seq![Step::OpenStructVariant {
                name: name_v,
                variant_index,
                variant: variant_v,
                len,
            }]
                + member_calls(acc@.4));
        assert forall|n: Node|
            closed(n) && #[trigger] is_prefix_at(s, pos as int, calls_of(n))
                implies n
                    == Node::StructVariant {
                        name: name_v,
                        variant_index,
                        variant: variant_v,
                        len,
                        members: n->StructVariant_members,
                    } by {
            lemma_head(n);
        }
    }
    loop
        invariant
            pos < p <= calls.len(),
            s == steps(calls@),
            acc@.0 == name_v && acc@.1 == variant_index && acc@.2 == variant_v && acc@.3 == len,
            members_closed(acc@.4),
            s.subrange(pos as int, p as int)
                == seq![Step::OpenStructVariant {
                    name: name_v,
                    variant_index,
                    variant: variant_v,
                    len,
                }]
                    + member_calls(acc@.4),
            forall|n: Node|
                closed(n) && #[trigger] is_prefix_at(s, pos as int, calls_of(n))
                    ==> (n == (Node::StructVariant {
                        name: name_v,
                        variant_index,
                        variant: variant_v,
                        len,
                        members: n->StructVariant_members,
                    })
                && acc@.4.len() <= n->StructVariant_members.len()
                    && acc@.4 == n->StructVariant_members.take(acc@.4.len() as int)
                && p == pos + 1 + member_calls(acc@.4).len()),
        decreases calls.len() - p,
    {
        let ghost k = acc@.4.len() as int;
        if p >= calls.len() {
            proof {
                assert forall|n: Node|
                    closed(n) implies !is_prefix_at(s, pos as int, calls_of(n)) by {
                    if is_prefix_at(s, pos as int, calls_of(n)) {
                        lemma_member_next(
                            s,
                            pos as int,
                            Step::OpenStructVariant {
                                name: name_v,
                                variant_index,
                                variant: variant_v,
                                len,
                            },
                            n->StructVariant_members,
                            k,
                            p as int,
                        );
                    }
                }
            }
            return Err(malformed());
        }
        assert(s[p as int] == calls@[p as int]@);
        match &calls[p] {
            Call::End => {
                let ghost values = acc@.4;
                let r = acc.end();
                proof {
                    assert(s.subrange(pos as int, p + 1)
                        =~= s.subrange(pos as int, p as int) + seq![Step::End]);
                    assert forall|n: Node|
                        closed(n) && #[trigger] is_prefix_at(s, pos as int, calls_of(n))
                            implies n
                                == Node::StructVariant {
                                    name: name_v,
                                    variant_index,
                                    variant: variant_v,
                                    len,
                                    members: values,
                                }
                                && p + 1 == pos + calls_of(n).len() by {
                        lemma_member_next(
                            s,
                            pos as int,
                            Step::OpenStructVariant {
                                name: name_v,
                                variant_index,
                                variant: variant_v,
                                len,
                            },
                            n->StructVariant_members,
                            k,
                            p as int,
                        );
                        assert(values =~= n->StructVariant_members);
                    }
                }
                return match r {
                    Ok(a) => Ok((a, p + 1)),
                    Err(e) => Err(e),
                };
            },
            Call::NamedField(key) => {
                let inner = capture_at(calls, p + 1);
                match inner {
                    Ok((v, q)) => {
                        let ghost before = acc@.4;
                        let ghost m = Member::Field(key@, v@);
                        proof {
                            assert forall|n: Node|
                                closed(n) && #[trigger] is_prefix_at(s, pos as int, calls_of(n))
                                    implies (k < n->StructVariant_members.len()
                                        && n->StructVariant_members[k] == m) by {
                                lemma_member_next(
                                    s,
                                    pos as int,
                                    Step::OpenStructVariant {
                                        name: name_v,
                                        variant_index,
                                        variant: variant_v,
                                        len,
                                    },
                                    n->StructVariant_members,
                                    k,
                                    p as int,
                                );
                                lemma_members_closed_index(n->StructVariant_members, k);
                            }
                        }
                        let _ = acc.serialize_field(key.clone(), Ok(v));
                        proof {
                            lemma_members_closed_push(before, m);
                            lemma_member_calls_push(before, m);
                            assert(s.subrange(pos as int, q as int)
                                =~= s.subrange(pos as int, p as int)
                                    + (seq![Step::NamedField(key@)] + s.subrange(p + 1, q as int)));
                            assert forall|n: Node|
                                closed(n) && #[trigger] is_prefix_at(s, pos as int, calls_of(n))
                                    implies acc@.4 == n->StructVariant_members.take(k + 1) by {
                                assert(acc@.4 =~= n->StructVariant_members.take(k + 1));
                            }
                        }
                        p = q;
                    },
                    Err(e) => {
                        proof {
                            assert forall|n: Node|
                                closed(n) implies !is_prefix_at(s, pos as int, calls_of(n)) by {
                                if is_prefix_at(s, pos as int, calls_of(n)) {
                                    lemma_member_next(
                                        s,
                                        pos as int,
                                        Step::OpenStructVariant {
                                            name: name_v,
                                            variant_index,
                                            variant: variant_v,
                                            len,
                                        },
                                        n->StructVariant_members,
                                        k,
                                        p as int,
                                    );
                                    lemma_members_closed_index(n->StructVariant_members, k);
                                }
                            }
                        }
                        return Err(e);
                    },
                }
            },
            Call::SkipField(key) => {
                let ghost before = acc@.4;
                let ghost m = Member::Skip(key@);
                proof {
                    assert forall|n: Node|
                        closed(n) && #[trigger] is_prefix_at(s, pos as int, calls_of(n))
                            implies (k < n->StructVariant_members.len()
                                && n->StructVariant_members[k] == m) by {
                        lemma_member_next(
                            s,
                            pos as int,
                            Step::OpenStructVariant {
                                name: name_v,
                                variant_index,
                                variant: variant_v,
                                len,
                            },
                            n->StructVariant_members,
                            k,
                            p as int,
                        );
                    }
                }
                let _ = acc.skip_field(key.clone());
                proof {
                    lemma_members_closed_push(before, m);
                    lemma_member_calls_push(before, m);
                    assert(s.subrange(pos as int, p + 1)
                        =~= s.subrange(pos as int, p as int) + seq![Step::SkipField(key@)]);
                    assert forall|n: Node|
                        closed(n) && #[trigger] is_prefix_at(s, pos as int, calls_of(n))
                            implies acc@.4 == n->StructVariant_members.take(k + 1) by {
                        assert(acc@.4 =~= n->StructVariant_members.take(k + 1));
                    }
                }
                p = p + 1;
            },
            _ => {
                proof {
                    assert forall|n: Node|
                        closed(n) implies !is_prefix_at(s, pos as int, calls_of(n)) by {
                        if is_prefix_at(s, pos as int, calls_of(n)) {
                            lemma_member_next(
                                s,
                                pos as int,
                                Step::OpenStructVariant {
                                    name: name_v,
                                    variant_index,
                                    variant: variant_v,
                                    len,
                                },
                                n->StructVariant_members,
                                k,
                                p as int,
                            );
                        }
                    }
                }
                return Err(malformed());
            },
        }
    }
}

/// Captures the node whose calls start at `pos`, and the index after them.
fn capture_at(calls: &Vec<Call>, pos: usize) -> (r: Result<(Ast, usize), Error>)
    requires
        pos <= calls.len(),
    ensures
        r matches Ok((a, q))
            ==> pos < q <= calls.len() && steps(calls@).subrange(pos as int, q as int)
            == calls_of(a@) && closed(a@),
        forall|n: Node|
            closed(n) && #[trigger] is_prefix_at(steps(calls@), pos as int, calls_of(n))
                ==> (r matches Ok((a, q))
                && a@ == n && q == pos + calls_of(n).len()),
        r matches Err(e) ==> is_malformed(e),
    decreases calls.len() - pos, 2int,
{
    let ghost s = steps(calls@);
    if pos >= calls.len() {
        proof {
            assert forall|n: Node| closed(n) implies !is_prefix_at(s, pos as int, calls_of(n)) by {
                lemma_head(n);
            }
        }
        return Err(malformed());
    }
    assert(s[pos as int] == calls@[pos as int]@);
    match &calls[pos] {
        Call::Bool(v) => {
            let r = Serializer::new().serialize_bool(*v);
            proof {
                assert(s.subrange(pos as int, pos + 1) =~= seq![Step::Bool(*v)]);
                assert forall|n: Node|
                    closed(n) && #[trigger] is_prefix_at(s, pos as int, calls_of(n))
                        implies n == (Node::Bool(*v)) by {
                    lemma_head(n);
                }
            }
            match r {
                Ok(a) => Ok((a, pos + 1)),
                Err(e) => Err(e),
            }
        },
        Call::I8(v) => {
            let r = Serializer::new().serialize_i8(*v);
            proof {
                assert(s.subrange(pos as int, pos + 1) =~= seq![Step::I8(*v)]);
                assert forall|n: Node|
                    closed(n) && #[trigger] is_prefix_at(s, pos as int, calls_of(n))
                        implies n == (Node::I8(*v)) by {
                    lemma_head(n);
                }
            }
            match r {
                Ok(a) => Ok((a, pos + 1)),
                Err(e) => Err(e),
            }
        },
        Call::I16(v) => {
            let r = Serializer::new().serialize_i16(*v);
            proof {
                assert(s.subrange(pos as int, pos + 1) =~= seq![Step::I16(*v)]);
                assert forall|n: Node|
                    closed(n) && #[trigger] is_prefix_at(s, pos as int, calls_of(n))
                        implies n == (Node::I16(*v)) by {
                    lemma_head(n);
                }
            }
            match r {
                Ok(a) => Ok((a, pos + 1)),
                Err(e) => Err(e),
            }
        },
        Call::I32(v) => {
            let r = Serializer::new().serialize_i32(*v);
            proof {
                assert(s.subrange(pos as int, pos + 1) =~= seq![Step::I32(*v)]);
                assert forall|n: Node|
                    closed(n) && #[trigger] is_prefix_at(s, pos as int, calls_of(n))
                        implies n == (Node::I32(*v)) by {
                    lemma_head(n);
                }
            }
            match r {
                Ok(a) => Ok((a, pos + 1)),
                Err(e) => Err(e),
            }
        },
        Call::I64(v) => {
            let r = Serializer::new().serialize_i64(*v);
            proof {
                assert(s.subrange(pos as int, pos + 1) =~= seq![Step::I64(*v)]);
                assert forall|n: Node|
                    closed(n) && #[trigger] is_prefix_at(s, pos as int, calls_of(n))
                        implies n == (Node::I64(*v)) by {
                    lemma_head(n);
                }
            }
            match r {
                Ok(a) => Ok((a, pos + 1)),
                Err(e) => Err(e),
            }
        },
        Call::U8(v) => {
            let r = Serializer::new().serialize_u8(*v);
            proof {
                assert(s.subrange(pos as int, pos + 1) =~= seq![Step::U8(*v)]);
                assert forall|n: Node|
                    closed(n) && #[trigger] is_prefix_at(s, pos as int, calls_of(n))
                        implies n == (Node::U8(*v)) by {
                    lemma_head(n);
                }
            }
            match r {
                Ok(a) => Ok((a, pos + 1)),
                Err(e) => Err(e),
            }
        },
        Call::U16(v) => {
            let r = Serializer::new().serialize_u16(*v);
            proof {
                assert(s.subrange(pos as int, pos + 1) =~= seq![Step::U16(*v)]);
                assert forall|n: Node|
                    closed(n) && #[trigger] is_prefix_at(s, pos as int, calls_of(n))
                        implies n == (Node::U16(*v)) by {
                    lemma_head(n);
                }
            }
            match r {
                Ok(a) => Ok((a, pos + 1)),
                Err(e) => Err(e),
            }
        },
        Call::U32(v) => {
            let r = Serializer::new().serialize_u32(*v);
            proof {
                assert(s.subrange(pos as int, pos + 1) =~= seq![Step::U32(*v)]);
                assert forall|n: Node|
                    closed(n) && #[trigger] is_prefix_at(s, pos as int, calls_of(n))
                        implies n == (Node::U32(*v)) by {
                    lemma_head(n);
                }
            }
            match r {
                Ok(a) => Ok((a, pos + 1)),
                Err(e) => Err(e),
            }
        },
        Call::U64(v) => {
            let r = Serializer::new().serialize_u64(*v);
            proof {
                assert(s.subrange(pos as int, pos + 1) =~= seq![Step::U64(*v)]);
                assert forall|n: Node|
                    closed(n) && #[trigger] is_prefix_at(s, pos as int, calls_of(n))
                        implies n == (Node::U64(*v)) by {
                    lemma_head(n);
                }
            }
            match r {
                Ok(a) => Ok((a, pos + 1)),
                Err(e) => Err(e),
            }
        },
        Call::F32(v) => {
            let r = Serializer::new().serialize_f32(*v);
            proof {
                assert(s.subrange(pos as int, pos + 1) =~= seq![Step::F32(*v)]);
                assert forall|n: Node|
                    closed(n) && #[trigger] is_prefix_at(s, pos as int, calls_of(n))
                        implies n == (Node::F32(*v)) by {
                    lemma_head(n);
                }
            }
            match r {
                Ok(a) => Ok((a, pos + 1)),
                Err(e) => Err(e),
            }
        },
        Call::F64(v) => {
            let r = Serializer::new().serialize_f64(*v);
            proof {
                assert(s.subrange(pos as int, pos + 1) =~= seq![Step::F64(*v)]);
                assert forall|n: Node|
                    closed(n) && #[trigger] is_prefix_at(s, pos as int, calls_of(n))
                        implies n == (Node::F64(*v)) by {
                    lemma_head(n);
                }
            }
            match r {
                Ok(a) => Ok((a, pos + 1)),
                Err(e) => Err(e),
            }
        },
        Call::Char(v) => {
            let r = Serializer::new().serialize_char(*v);
            proof {
                assert(s.subrange(pos as int, pos + 1) =~= seq![Step::Char(*v)]);
                assert forall|n: Node|
                    closed(n) && #[trigger] is_prefix_at(s, pos as int, calls_of(n))
                        implies n == (Node::Char(*v)) by {
                    lemma_head(n);
                }
            }
            match r {
                Ok(a) => Ok((a, pos + 1)),
                Err(e) => Err(e),
            }
        },
        Call::Str(v) => {
            let r = Serializer::new().serialize_str(v.as_str());
            proof {
                assert(s.subrange(pos as int, pos + 1) =~= seq![Step::Str(v@)]);
                assert forall|n: Node|
                    closed(n) && #[trigger] is_prefix_at(s, pos as int, calls_of(n))
                        implies n == (Node::Str(v@)) by {
                    lemma_head(n);
                }
            }
            match r {
                Ok(a) => Ok((a, pos + 1)),
                Err(e) => Err(e),
            }
        },
        Call::Bytes(v) => {
            let r = Serializer::new().serialize_bytes(v.as_slice());
            proof {
                assert(s.subrange(pos as int, pos + 1) =~= seq![Step::Bytes(v@)]);
                assert forall|n: Node|
                    closed(n) && #[trigger] is_prefix_at(s, pos as int, calls_of(n))
                        implies n == (Node::Bytes(v@)) by {
                    lemma_head(n);
                }
            }
            match r {
                Ok(a) => Ok((a, pos + 1)),
                Err(e) => Err(e),
            }
        },
        Call::OptionNone => {
            let r = Serializer::new().serialize_none();
            proof {
                assert(s.subrange(pos as int, pos + 1) =~= seq![Step::OptionNone]);
                assert forall|n: Node|
                    closed(n) && #[trigger] is_prefix_at(s, pos as int, calls_of(n))
                        implies n == (Node::OptionNone) by {
                    lemma_head(n);
                }
            }
            match r {
                Ok(a) => Ok((a, pos + 1)),
                Err(e) => Err(e),
            }
        },
        Call::Unit => {
            let r = Serializer::new().serialize_unit();
            proof {
                assert(s.subrange(pos as int, pos + 1) =~= seq![Step::Unit]);
                assert forall|n: Node|
                    closed(n) && #[trigger] is_prefix_at(s, pos as int, calls_of(n))
                        implies n == (Node::Unit) by {
                    lemma_head(n);
                }
            }
            match r {
                Ok(a) => Ok((a, pos + 1)),
                Err(e) => Err(e),
            }
        },
        Call::UnitStruct(name) => {
            let r = Serializer::new().serialize_unit_struct(name.clone());
            proof {
                assert(s.subrange(pos as int, pos + 1) =~= seq![Step::UnitStruct(name@)]);
                assert forall|n: Node|
                    closed(n) && #[trigger] is_prefix_at(s, pos as int, calls_of(n))
                        implies n == (Node::UnitStruct(name@)) by {
                    lemma_head(n);
                }
            }
            match r {
                Ok(a) => Ok((a, pos + 1)),
                Err(e) => Err(e),
            }
        },
        Call::UnitVariant { name, variant_index, variant } => {
            let r = Serializer::new().serialize_unit_variant(
                name.clone(),
                *variant_index,
                variant.clone(),
            );
            proof {
                assert(s.subrange(pos as int, pos + 1)
                    =~= seq![Step::UnitVariant {
                        name: name@,
                        variant_index: *variant_index,
                        variant: variant@,
                    }]);
                assert forall|n: Node|
                    closed(n) && #[trigger] is_prefix_at(s, pos as int, calls_of(n))
                        implies n
                            == (Node::UnitVariant {
                                name: name@,
                                variant_index: *variant_index,
                                variant: variant@,
                            }) by {
                    lemma_head(n);
                }
            }
            match r {
                Ok(a) => Ok((a, pos + 1)),
                Err(e) => Err(e),
            }
        },
        Call::Element | Call::Field | Call::Key | Call::Value | Call::NamedField(_)
        | Call::SkipField(_) | Call::End => {
            proof {
                assert forall|n: Node|
                    closed(n) implies !is_prefix_at(s, pos as int, calls_of(n)) by {
                    lemma_head(n);
                    if is_prefix_at(s, pos as int, calls_of(n)) {
                        lemma_prefix_single(s, pos as int, head_step(n));
                    }
                }
            }
            Err(malformed())
        },
        _ => capture_compound(calls, pos),
    }
}

/// Captures the node with nested values whose calls start at `pos`, and the
/// index after them.
fn capture_compound(calls: &Vec<Call>, pos: usize) -> (r: Result<(Ast, usize), Error>)
    requires
        pos < calls.len(),
        calls@[pos as int] is OptionSome || calls@[pos as int] is NewtypeStruct
            || calls@[pos as int] is NewtypeVariant || calls@[pos as int] is OpenSequence
            || calls@[pos as int] is OpenTuple || calls@[pos as int] is OpenTupleStruct
            || calls@[pos as int] is OpenTupleVariant || calls@[pos as int] is OpenMapping
            || calls@[pos as int] is OpenStruct || calls@[pos as int] is OpenStructVariant,
    ensures
        r matches Ok((a, q))
            ==> pos < q <= calls.len() && steps(calls@).subrange(pos as int, q as int)
            == calls_of(a@) && closed(a@),
        forall|n: Node|
            closed(n) && #[trigger] is_prefix_at(steps(calls@), pos as int, calls_of(n))
                ==> (r matches Ok((a, q))
                && a@ == n && q == pos + calls_of(n).len()),
        r matches Err(e) ==> is_malformed(e),
    decreases calls.len() - pos, 1int,
{
    let ghost s = steps(calls@);
    assert(s[pos as int] == calls@[pos as int]@);
    match &calls[pos] {
        Call::OptionSome => {
            let inner = capture_at(calls, pos + 1);
            match inner {
                Ok((v, q)) => {
                    let r = Serializer::new().serialize_some(Ok(v));
                    proof {
                        assert(s.subrange(pos as int, q as int)
                            =~= seq![Step::OptionSome] + s.subrange(pos + 1, q as int));
                        assert forall|n: Node|
                            closed(n) && #[trigger] is_prefix_at(s, pos as int, calls_of(n))
                                implies n == (Node::OptionSome(Box::new(v@)))
                                    && q == pos + calls_of(n).len() by {
                            lemma_head(n);
                            lemma_prefix_concat(
                                s,
                                pos as int,
                                seq![Step::OptionSome],
                                calls_of(*n->OptionSome_0),
                            );
                        }
                    }
                    match r {
                        Ok(a) => Ok((a, q)),
                        Err(e) => Err(e),
                    }
                },
                Err(e) => {
                    proof {
                        assert forall|n: Node|
                            closed(n) implies !is_prefix_at(s, pos as int, calls_of(n)) by {
                            lemma_head(n);
                            if is_prefix_at(s, pos as int, calls_of(n)) {
                                lemma_prefix_concat(
                                    s,
                                    pos as int,
                                    seq![Step::OptionSome],
                                    calls_of(*n->OptionSome_0),
                                );
                            }
                        }
                    }
                    Err(e)
                },
            }
        },
        Call::NewtypeStruct(name) => {
            let inner = capture_at(calls, pos + 1);
            match inner {
                Ok((v, q)) => {
                    let r = Serializer::new().serialize_newtype_struct(name.clone(), Ok(v));
                    proof {
                        assert(s.subrange(pos as int, q as int)
                            =~= seq![Step::NewtypeStruct(name@)] + s.subrange(pos + 1, q as int));
                        assert forall|n: Node|
                            closed(n) && #[trigger] is_prefix_at(s, pos as int, calls_of(n))
                                implies n
                                    == (Node::NewtypeStruct { name: name@, value: Box::new(v@) })
                                    && q == pos + calls_of(n).len() by {
                            lemma_head(n);
                            lemma_prefix_concat(
                                s,
                                pos as int,
                                seq![Step::NewtypeStruct(name@)],
                                calls_of(*n->NewtypeStruct_value),
                            );
                        }
                    }
                    match r {
                        Ok(a) => Ok((a, q)),
                        Err(e) => Err(e),
                    }
                },
                Err(e) => {
                    proof {
                        assert forall|n: Node|
                            closed(n) implies !is_prefix_at(s, pos as int, calls_of(n)) by {
                            lemma_head(n);
                            if is_prefix_at(s, pos as int, calls_of(n)) {
                                lemma_prefix_concat(
                                    s,
                                    pos as int,
                                    seq![Step::NewtypeStruct(name@)],
                                    calls_of(*n->NewtypeStruct_value),
                                );
                            }
                        }
                    }
                    Err(e)
                },
            }
        },
        Call::NewtypeVariant { name, variant_index, variant } => {
            let inner = capture_at(calls, pos + 1);
            match inner {
                Ok((v, q)) => {
                    let r = Serializer::new().serialize_newtype_variant(
                        name.clone(),
                        *variant_index,
                        variant.clone(),
                        Ok(v),
                    );
                    proof {
                        assert(s.subrange(pos as int, q as int)
                            =~= seq![Step::NewtypeVariant {
                                name: name@,
                                variant_index: *variant_index,
                                variant: variant@,
                            }]
                                + s.subrange(pos + 1, q as int));
                        assert forall|n: Node|
                            closed(n) && #[trigger] is_prefix_at(s, pos as int, calls_of(n))
                                implies n
                                    == (Node::NewtypeVariant {
                                        name: name@,
                                        variant_index: *variant_index,
                                        variant: variant@,
                                        value: Box::new(v@),
                                    })
                                    && q == pos + calls_of(n).len() by {
                            lemma_head(n);
                            lemma_prefix_concat(
                                s,
                                pos as int,
                                seq![Step::NewtypeVariant {
                                    name: name@,
                                    variant_index: *variant_index,
                                    variant: variant@,
                                }],
                                calls_of(*n->NewtypeVariant_value),
                            );
                        }
                    }
                    match r {
                        Ok(a) => Ok((a, q)),
                        Err(e) => Err(e),
                    }
                },
                Err(e) => {
                    proof {
                        assert forall|n: Node|
                            closed(n) implies !is_prefix_at(s, pos as int, calls_of(n)) by {
                            lemma_head(n);
                            if is_prefix_at(s, pos as int, calls_of(n)) {
                                lemma_prefix_concat(
                                    s,
                                    pos as int,
                                    seq![Step::NewtypeVariant {
                                        name: name@,
                                        variant_index: *variant_index,
                                        variant: variant@,
                                    }],
                                    calls_of(*n->NewtypeVariant_value),
                                );
                            }
                        }
                    }
                    Err(e)
                },
            }
        },
        Call::OpenSequence(len) => capture_sequence(calls, pos, *len),
        Call::OpenTuple(len) => capture_tuple(calls, pos, *len),
        Call::OpenTupleStruct { name, len } => capture_tuple_struct(calls, pos, name.clone(), *len),
        Call::OpenTupleVariant { name, variant_index, variant, len } => capture_tuple_variant(
            calls,
            pos,
            name.clone(),
            *variant_index,
            variant.clone(),
            *len,
        ),
        Call::OpenMapping(len) => capture_mapping(calls, pos, *len),
        Call::OpenStruct { name, len } => capture_struct(calls, pos, name.clone(), *len),
        Call::OpenStructVariant { name, variant_index, variant, len } => capture_struct_variant(
            calls,
            pos,
            name.clone(),
            *variant_index,
            variant.clone(),
            *len,
        ),
        _ => {
            assert(false);
            Err(malformed())
        },
    }
}

/// The closed tree whose calls are exactly `t`, if there is one.
pub open spec fn captured(t: Seq<Step>) -> Option<Node> {
    if exists|n: Node| closed(n) && calls_of(n) == t {
        Some(choose|n: Node| closed(n) && calls_of(n) == t)
    } else {
        None
    }
}

/// Capture: the tree whose replay is exactly `calls`.
///
/// The calls describe at most one closed tree; it is returned when they
/// describe one, and the malformed-calls error otherwise.
pub fn capture(calls: &Vec<Call>) -> (r: Result<Ast, Error>)
    ensures
        r matches Ok(a) ==> calls_of(a@) == steps(calls@) && closed(a@),
        match captured(steps(calls@)) {
            Some(n) => r matches Ok(a) && a@ == n,
            None => r matches Err(e) && is_malformed(e),
        },
{
    let ghost s = steps(calls@);
    proof {
        assert forall|n: Node|
            closed(n) && calls_of(n) == s implies is_prefix_at(s, 0, calls_of(n)) by {
            assert(s.subrange(0, s.len() as int) =~= s);
        }
    }
    let r = capture_at(calls, 0);
    proof {
        if exists|n: Node| closed(n) && calls_of(n) == s {
            let n = choose|n: Node| closed(n) && calls_of(n) == s;
            assert(is_prefix_at(s, 0, calls_of(n)));
        }
    }
    match r {
        Ok((a, q)) => {
            if q == calls.len() {
                assert(s.subrange(0, q as int) =~= s);
                Ok(a)
            } else {
                Err(malformed())
            }
        },
        Err(e) => Err(e),
    }
}

} // verus!

//! Laws that relate capture and replay.
use crate::ast::{Member, Node, closed};
use crate::call::{Step, calls_of, member_calls};
use crate::capture::{
    captured, is_prefix_at, lemma_member_prefix, lemma_member_take, lemma_prefix_concat,
    lemma_prefix_single, lemma_prefix_trans, lemma_prefix_unique,
};
use vstd::prelude::*;

verus! {

/// Capturing what a closed tree replays gives back that tree.
pub proof fn lemma_capture_of_replay(n: Node)
    requires
        closed(n),
    ensures
        captured(calls_of(n)) == Some(n),
{
    let t = calls_of(n);
    assert(exists|m: Node| closed(m) && calls_of(m) == t);
    let m = choose|m: Node| closed(m) && calls_of(m) == t;
    assert(t.subrange(0, t.len() as int) =~= t);
    lemma_prefix_unique(t, 0, m, n);
}

/// Replaying what was captured from a sequence of calls issues exactly that
/// sequence: a value and the tree captured from it drive a serializer alike.
pub proof fn lemma_replay_of_capture(t: Seq<Step>)
    ensures
        captured(t) matches Some(n) ==> calls_of(n) == t && closed(n),
{
}

/// Capturing the same calls twice gives the same tree, and different calls
/// never give the same tree: the order of elements and fields counts.
pub proof fn lemma_capture_deterministic(t1: Seq<Step>, t2: Seq<Step>)
    requires
        captured(t1) is Some,
    ensures
        (captured(t1) == captured(t2)) == (t1 == t2),
{
}

/// Two closed trees are equal exactly when they replay the same calls.
pub proof fn lemma_structural_equality(a: Node, b: Node)
    requires
        closed(a),
        closed(b),
    ensures
        (a == b) == (calls_of(a) == calls_of(b)),
{
    if calls_of(a) == calls_of(b) {
        let t = calls_of(a);
        assert(t.subrange(0, t.len() as int) =~= t);
        lemma_prefix_unique(t, 0, a, b);
    }
}

/// Where a struct skips a field, replay issues the skip, in its place: right
/// after the calls of the operations before it.
pub proof fn lemma_skip_replayed(name: Seq<char>, len: usize, members: Seq<Member>, i: int)
    requires
        0 <= i < members.len(),
        members[i] is Skip,
    ensures
        is_prefix_at(
            calls_of(Node::Struct { name, len, members }),
            (1 + member_calls(members.take(i)).len()) as int,
            seq![Step::SkipField(members[i]->Skip_0)],
        ),
{
    lemma_skip_at(Step::OpenStruct { name, len }, members, i);
}

/// Where a struct variant skips a field, replay issues the skip, in its place.
pub proof fn lemma_skip_replayed_in_variant(
    name: Seq<char>,
    variant_index: u32,
    variant: Seq<char>,
    len: usize,
    members: Seq<Member>,
    i: int,
)
    requires
        0 <= i < members.len(),
        members[i] is Skip,
    ensures
        is_prefix_at(
            calls_of(Node::StructVariant { name, variant_index, variant, len, members }),
            (1 + member_calls(members.take(i)).len()) as int,
            seq![Step::SkipField(members[i]->Skip_0)],
        ),
{
    lemma_skip_at(Step::OpenStructVariant { name, variant_index, variant, len }, members, i);
}

/// The skip of the `i`-th operation stands after the opening call and the
/// calls of the operations before it.
proof fn lemma_skip_at(open: Step, members: Seq<Member>, i: int)
    requires
        0 <= i < members.len(),
        members[i] is Skip,
    ensures
        is_prefix_at(
            seq![open] + member_calls(members) + seq![Step::End],
            (1 + member_calls(members.take(i)).len()) as int,
            seq![Step::SkipField(members[i]->Skip_0)],
        ),
{
    let whole = seq![open] + member_calls(members) + seq![Step::End];
    let m = member_calls(members);
    let mk = member_calls(members.take(i));
    let skip = seq![Step::SkipField(members[i]->Skip_0)];
    assert(whole.subrange(0, whole.len() as int) =~= whole);
    lemma_prefix_concat(whole, 0, seq![open] + m, seq![Step::End]);
    lemma_prefix_concat(whole, 0, seq![open], m);
    lemma_member_prefix(members, i + 1);
    lemma_member_take(members, i);
    assert(member_calls(members.take(i + 1)) =~= mk + skip);
    lemma_prefix_trans(whole, 1, m, mk + skip);
    lemma_prefix_concat(whole, 1, mk, skip);
}

} // verus!

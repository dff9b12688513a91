//! Structural equality and copies of trees, both made through their calls.
use crate::ast::{Ast, XAst, closed};
use crate::call::{Call, Step, calls_of, steps};
use crate::capture::capture;
use crate::laws::{lemma_capture_of_replay, lemma_structural_equality};
use vstd::prelude::*;

verus! {

/// Whether two length hints are equal.
fn hint_equal(x: &Option<usize>, y: &Option<usize>) -> (r: bool)
    ensures
        r == (*x == *y),
{
    match (x, y) {
        (Some(a), Some(b)) => *a == *b,
        (None, None) => true,
        _ => false,
    }
}

/// Whether two byte strings are equal.
fn bytes_equal(x: &Vec<u8>, y: &Vec<u8>) -> (r: bool)
    ensures
        r == (x@ == y@),
{
    if x.len() != y.len() {
        return false;
    }
    let mut i: usize = 0;
    while i < x.len()
        invariant
            x@.len() == y@.len(),
            i <= x.len(),
            x@.subrange(0, i as int) == y@.subrange(0, i as int),
        decreases x.len() - i,
    {
        if x[i] != y[i] {
            assert(x@.subrange(0, i + 1)[i as int] != y@.subrange(0, i + 1)[i as int]);
            return false;
        }
        assert(x@.subrange(0, i + 1) =~= x@.subrange(0, i as int).push(x@[i as int]));
        assert(y@.subrange(0, i + 1) =~= y@.subrange(0, i as int).push(y@[i as int]));
        i += 1;
    }
    assert(x@.subrange(0, i as int) =~= x@);
    assert(y@.subrange(0, i as int) =~= y@);
    true
}

/// Whether two calls are the same call.
fn call_equal(x: &Call, y: &Call) -> (r: bool)
    ensures
        r == (x@ == y@),
{
    match (x, y) {
        (Call::Bool(x0), Call::Bool(y0)) => *x0 == *y0,
        (Call::I8(x0), Call::I8(y0)) => *x0 == *y0,
        (Call::I16(x0), Call::I16(y0)) => *x0 == *y0,
        (Call::I32(x0), Call::I32(y0)) => *x0 == *y0,
        (Call::I64(x0), Call::I64(y0)) => *x0 == *y0,
        (Call::U8(x0), Call::U8(y0)) => *x0 == *y0,
        (Call::U16(x0), Call::U16(y0)) => *x0 == *y0,
        (Call::U32(x0), Call::U32(y0)) => *x0 == *y0,
        (Call::U64(x0), Call::U64(y0)) => *x0 == *y0,
        (Call::F32(x0), Call::F32(y0)) => *x0 == *y0,
        (Call::F64(x0), Call::F64(y0)) => *x0 == *y0,
        (Call::Char(x0), Call::Char(y0)) => *x0 == *y0,
        (Call::Str(x0), Call::Str(y0)) => (*x0).eq(y0),
        (Call::Bytes(x0), Call::Bytes(y0)) => bytes_equal(x0, y0),
        (Call::OptionNone, Call::OptionNone) => true,
        (Call::OptionSome, Call::OptionSome) => true,
        (Call::Unit, Call::Unit) => true,
        (Call::UnitStruct(x0), Call::UnitStruct(y0)) => (*x0).eq(y0),
        (
            Call::UnitVariant { name: x0, variant_index: x1, variant: x2 },
            Call::UnitVariant { name: y0, variant_index: y1, variant: y2 },
        ) => (*x0).eq(y0) && *x1 == *y1 && (*x2).eq(y2),
        (Call::NewtypeStruct(x0), Call::NewtypeStruct(y0)) => (*x0).eq(y0),
        (
            Call::NewtypeVariant { name: x0, variant_index: x1, variant: x2 },
            Call::NewtypeVariant { name: y0, variant_index: y1, variant: y2 },
        ) => (*x0).eq(y0) && *x1 == *y1 && (*x2).eq(y2),
        (Call::OpenSequence(x0), Call::OpenSequence(y0)) => hint_equal(x0, y0),
        (Call::OpenTuple(x0), Call::OpenTuple(y0)) => *x0 == *y0,
        (
            Call::OpenTupleStruct { name: x0, len: x1 },
            Call::OpenTupleStruct { name: y0, len: y1 },
        ) => (*x0).eq(y0) && *x1 == *y1,
        (
            Call::OpenTupleVariant { name: x0, variant_index: x1, variant: x2, len: x3 },
            Call::OpenTupleVariant { name: y0, variant_index: y1, variant: y2, len: y3 },
        ) => (*x0).eq(y0) && *x1 == *y1 && (*x2).eq(y2) && *x3 == *y3,
        (Call::OpenMapping(x0), Call::OpenMapping(y0)) => hint_equal(x0, y0),
        (
            Call::OpenStruct { name: x0, len: x1 },
            Call::OpenStruct { name: y0, len: y1 },
        ) => (*x0).eq(y0) && *x1 == *y1,
        (
            Call::OpenStructVariant { name: x0, variant_index: x1, variant: x2, len: x3 },
            Call::OpenStructVariant { name: y0, variant_index: y1, variant: y2, len: y3 },
        ) => (*x0).eq(y0) && *x1 == *y1 && (*x2).eq(y2) && *x3 == *y3,
        (Call::Element, Call::Element) => true,
        (Call::Field, Call::Field) => true,
        (Call::Key, Call::Key) => true,
        (Call::Value, Call::Value) => true,
        (Call::NamedField(x0), Call::NamedField(y0)) => (*x0).eq(y0),
        (Call::SkipField(x0), Call::SkipField(y0)) => (*x0).eq(y0),
        (Call::End, Call::End) => true,
        _ => false,
    }
}

/// Whether two lists of calls are the same, call for call.
fn calls_equal(x: &Vec<Call>, y: &Vec<Call>) -> (r: bool)
    ensures
        r == (steps(x@) == steps(y@)),
{
    if x.len() != y.len() {
        assert(steps(x@).len() != steps(y@).len());
        return false;
    }
    let mut i: usize = 0;
    while i < x.len()
        invariant
            x@.len() == y@.len(),
            i <= x.len(),
            steps(x@).subrange(0, i as int) == steps(y@).subrange(0, i as int),
        decreases x.len() - i,
    {
        if !call_equal(&x[i], &y[i]) {
            assert(steps(x@)[i as int] != steps(y@)[i as int]);
            return false;
        }
        assert(steps(x@).subrange(0, i + 1)
            =~= steps(x@).subrange(0, i as int).push(steps(x@)[i as int]));
        assert(steps(y@).subrange(0, i + 1)
            =~= steps(y@).subrange(0, i as int).push(steps(y@)[i as int]));
        i += 1;
    }
    assert(steps(x@).subrange(0, i as int) =~= steps(x@));
    assert(steps(y@).subrange(0, i as int) =~= steps(y@));
    true
}

impl XAst<crate::ast::Final> {
    /// Structural equality: the same shape, payloads and operations, in the
    /// same order, all the way down.
    pub fn same_tree(&self, other: &Ast) -> (r: bool)
        ensures
            r == (self@ == other@),
    {
        let x = self.calls();
        let y = other.calls();
        proof {
            lemma_structural_equality(self@, other@);
        }
        calls_equal(&x, &y)
    }

    /// A copy of the tree, rebuilt by capturing its own replay.
    pub fn copy_tree(&self) -> (r: Ast)
        ensures
            r@ == self@,
    {
        let calls = self.calls();
        proof {
            lemma_capture_of_replay(self@);
        }
        match capture(&calls) {
            Ok(a) => a,
            Err(_) => {
                assert(false);
                XAst::Unit
            },
        }
    }
}

impl Clone for XAst<crate::ast::Final> {
    fn clone(&self) -> Self {
        self.copy_tree()
    }
}

} // verus!

use serde_ast::ast::{Ast, MapOp, SeqOp, Struct, Tuple, XAst};
use serde_ast::call::Call;
use serde_ast::capture::capture;
use serde_ast::ser::{Error, SerializeMap, SerializeSeq, SerializeStruct, SerializeTuple, Serializer};

fn s(v: &str) -> String {
    v.to_string()
}

fn str_node(v: &str) -> Ast {
    Serializer::new().serialize_str(v).unwrap()
}

#[test]
fn capture_u32_scalar() {
    let ast = Serializer::new().serialize_u32(10).unwrap();
    assert_eq!(ast, XAst::U32(10));
    assert_eq!(ast.calls(), vec![Call::U32(10)]);
    assert_eq!(capture(&ast.calls()), Ok(XAst::U32(10)));
}

#[test]
fn capture_struct_with_one_field() {
    let mut st = Serializer::new().serialize_struct(s("Example"), 1).unwrap();
    st.serialize_field(s("hello"), Ok(str_node("World"))).unwrap();
    let ast = st.end().unwrap();
    let expected: Ast = XAst::Struct {
        name: s("Example"),
        len: 1,
        ops: vec![Struct::Field { key: s("hello"), value: Box::new(XAst::Str(s("World"))) }],
    };
    assert_eq!(ast, expected);
    let calls = ast.calls();
    assert_eq!(
        calls,
        vec![
            Call::OpenStruct { name: s("Example"), len: 1 },
            Call::NamedField(s("hello")),
            Call::Str(s("World")),
            Call::End,
        ]
    );
    assert_eq!(capture(&calls), Ok(expected));
}

#[test]
fn capture_fixed_array_as_tuple() {
    let mut t = SerializeTuple::new(3);
    for v in [1u64, 2, 3] {
        t.serialize_element(Serializer::new().serialize_u64(v)).unwrap();
    }
    let ast = t.end().unwrap();
    let expected: Ast = XAst::Tuple {
        len: 3,
        ops: vec![
            Tuple::Element { value: Box::new(XAst::U64(1)) },
            Tuple::Element { value: Box::new(XAst::U64(2)) },
            Tuple::Element { value: Box::new(XAst::U64(3)) },
        ],
    };
    assert_eq!(ast, expected);
    assert_eq!(
        ast.calls(),
        vec![
            Call::OpenTuple(3),
            Call::Element,
            Call::U64(1),
            Call::Element,
            Call::U64(2),
            Call::Element,
            Call::U64(3),
            Call::End,
        ]
    );
}

#[test]
fn capture_empty_sequence() {
    let ast = Serializer::new().serialize_seq(Some(0)).unwrap().end().unwrap();
    assert_eq!(ast, XAst::Sequence { len: Some(0), ops: vec![] });
    assert_eq!(ast.calls(), vec![Call::OpenSequence(Some(0)), Call::End]);
    let unknown = SerializeSeq::new(None).end().unwrap();
    assert_eq!(unknown, XAst::Sequence { len: None, ops: vec![] });
    assert_eq!(capture(&unknown.calls()), Ok(unknown));
}

#[test]
fn capture_map_keeps_key_value_order() {
    let mut m = SerializeMap::new(Some(2));
    m.serialize_key(Ok(str_node("b"))).unwrap();
    m.serialize_value(Ok(str_node("2"))).unwrap();
    m.serialize_key(Ok(str_node("a"))).unwrap();
    m.serialize_value(Ok(str_node("1"))).unwrap();
    let ast = m.end().unwrap();
    let expected: Ast = XAst::Mapping {
        len: Some(2),
        ops: vec![
            MapOp::Key { key: Box::new(XAst::Str(s("b"))) },
            MapOp::Value { value: Box::new(XAst::Str(s("2"))) },
            MapOp::Key { key: Box::new(XAst::Str(s("a"))) },
            MapOp::Value { value: Box::new(XAst::Str(s("1"))) },
        ],
    };
    assert_eq!(ast, expected);
    let calls = ast.calls();
    assert_eq!(
        calls,
        vec![
            Call::OpenMapping(Some(2)),
            Call::Key,
            Call::Str(s("b")),
            Call::Value,
            Call::Str(s("2")),
            Call::Key,
            Call::Str(s("a")),
            Call::Value,
            Call::Str(s("1")),
            Call::End,
        ]
    );
    assert_eq!(capture(&calls), Ok(expected));
}

#[test]
fn skipped_field_is_replayed_as_skip() {
    let mut st = SerializeStruct::new(s("Point"), 2);
    st.serialize_field(s("x"), Serializer::new().serialize_i32(-4)).unwrap();
    st.skip_field(s("y")).unwrap();
    let ast = st.end().unwrap();
    let calls = ast.calls();
    assert_eq!(
        calls,
        vec![
            Call::OpenStruct { name: s("Point"), len: 2 },
            Call::NamedField(s("x")),
            Call::I32(-4),
            Call::SkipField(s("y")),
            Call::End,
        ]
    );
    let back = capture(&calls).unwrap();
    match &back {
        XAst::Struct { ops, .. } => assert_eq!(ops[1], Struct::Skip { key: s("y") }),
        _ => panic!("not a struct"),
    }
    assert_eq!(back, ast);
}

#[test]
fn failed_element_fails_the_aggregate() {
    let mut seq = SerializeSeq::new(Some(3));
    seq.serialize_element(Serializer::new().serialize_bool(true)).unwrap();
    let err = seq.serialize_element(Err(Error::custom(s("boom"))));
    assert_eq!(err, Err(Error::Custom(s("boom"))));
    assert_eq!(err.unwrap_err().message(), &s("boom"));
    let ast = seq.end().unwrap();
    assert_eq!(ast, XAst::Sequence { len: Some(3), ops: vec![SeqOp::Element { value: Box::new(XAst::Bool(true)) }] });
    assert_eq!(
        Serializer::new().serialize_some(Err(Error::custom(s("inner")))),
        Err(Error::Custom(s("inner")))
    );
    assert_eq!(
        Serializer::new().serialize_newtype_struct(s("Meters"), Err(Error::custom(s("inner")))),
        Err(Error::Custom(s("inner")))
    );
}

#[test]
fn capture_is_deterministic_and_order_sensitive() {
    let ab = vec![Call::OpenTuple(2), Call::Element, Call::U8(1), Call::Element, Call::U8(2), Call::End];
    let ba = vec![Call::OpenTuple(2), Call::Element, Call::U8(2), Call::Element, Call::U8(1), Call::End];
    assert_eq!(capture(&ab), capture(&ab));
    assert_ne!(capture(&ab).unwrap(), capture(&ba).unwrap());
}

#[test]
fn malformed_calls_are_rejected() {
    let msg = Err(Error::Custom(s("malformed call sequence")));
    assert_eq!(capture(&vec![]), msg);
    assert_eq!(capture(&vec![Call::End]), msg);
    assert_eq!(capture(&vec![Call::U8(1), Call::U8(2)]), msg);
    assert_eq!(capture(&vec![Call::OpenSequence(None), Call::U8(1), Call::End]), msg);
    assert_eq!(capture(&vec![Call::OpenSequence(None), Call::Element]), msg);
    assert_eq!(capture(&vec![Call::OptionSome]), msg);
    assert_eq!(capture(&vec![Call::OpenStruct { name: s("S"), len: 0 }, Call::Key, Call::Unit, Call::End]), msg);
}

#[test]
fn capture_nested_struct_round_trip() {
    let calls = vec![
        Call::OpenStruct { name: s("Example"), len: 5 },
        Call::NamedField(s("hello")),
        Call::Str(s("World")),
        Call::NamedField(s("nested")),
        Call::OpenStruct { name: s("Nested"), len: 2 },
        Call::NamedField(s("a")),
        Call::U32(100),
        Call::NamedField(s("b")),
        Call::U64(42),
        Call::End,
        Call::NamedField(s("array")),
        Call::OpenTuple(3),
        Call::Element,
        Call::U64(1),
        Call::Element,
        Call::U64(2),
        Call::Element,
        Call::U64(3),
        Call::End,
        Call::NamedField(s("vec")),
        Call::OpenSequence(Some(2)),
        Call::Element,
        Call::Str(s("hello")),
        Call::Element,
        Call::Str(s("world")),
        Call::End,
        Call::NamedField(s("vec2")),
        Call::OpenSequence(Some(0)),
        Call::End,
        Call::End,
    ];
    let ast = capture(&calls).unwrap();
    assert_eq!(ast.calls(), calls);
    match &ast {
        XAst::Struct { name, len, ops } => {
            assert_eq!(name, "Example");
            assert_eq!(*len, 5);
            assert_eq!(ops.len(), 5);
        }
        _ => panic!("not a struct"),
    }
}

#[test]
fn capture_variants_and_wrappers() {
    let calls = vec![
        Call::OpenTupleVariant { name: s("E"), variant_index: 1, variant: s("T"), len: 2 },
        Call::Field,
        Call::OptionSome,
        Call::NewtypeVariant { name: s("E"), variant_index: 0, variant: s("N") },
        Call::Bytes(vec![0, 255]),
        Call::Field,
        Call::OpenStructVariant { name: s("E"), variant_index: 2, variant: s("S"), len: 1 },
        Call::SkipField(s("gone")),
        Call::End,
        Call::End,
    ];
    let ast = capture(&calls).unwrap();
    assert_eq!(ast.calls(), calls);
    let unit = Serializer::new().serialize_unit_variant(s("E"), 3, s("U")).unwrap();
    assert_eq!(unit.calls(), vec![Call::UnitVariant { name: s("E"), variant_index: 3, variant: s("U") }]);
    let f = Serializer::new().serialize_f64(1.5f64.to_bits()).unwrap();
    assert_eq!(f, XAst::F64(1.5f64.to_bits()));
    assert_eq!(capture(&vec![Call::F32(2.0f32.to_bits())]), Ok(XAst::F32(2.0f32.to_bits())));
}

#[test]
fn structural_equality_is_order_sensitive() {
    let mut a = SerializeStruct::new(s("P"), 2);
    a.serialize_field(s("x"), Serializer::new().serialize_u8(1)).unwrap();
    a.serialize_field(s("y"), Serializer::new().serialize_u8(2)).unwrap();
    let a = a.end().unwrap();
    let mut b = SerializeStruct::new(s("P"), 2);
    b.serialize_field(s("y"), Serializer::new().serialize_u8(2)).unwrap();
    b.serialize_field(s("x"), Serializer::new().serialize_u8(1)).unwrap();
    let b = b.end().unwrap();
    assert!(a.same_tree(&a));
    assert!(!a.same_tree(&b));
    let bytes_a = Serializer::new().serialize_bytes(&[1, 2, 3]).unwrap();
    let bytes_b = Serializer::new().serialize_bytes(&[1, 2, 4]).unwrap();
    assert!(!bytes_a.same_tree(&bytes_b));
    let copy = a.copy_tree();
    assert!(copy.same_tree(&a));
    assert_eq!(copy, a);
    assert_eq!(b.clone(), b);
}

#[test]
fn duplicate_keys_are_kept() {
    let mut st = SerializeStruct::new(s("D"), 2);
    st.serialize_field(s("k"), Serializer::new().serialize_char('a')).unwrap();
    st.serialize_field(s("k"), Serializer::new().serialize_char('b')).unwrap();
    let ast = st.end().unwrap();
    match &ast {
        XAst::Struct { ops, .. } => assert_eq!(ops.len(), 2),
        _ => panic!("not a struct"),
    }
    assert_eq!(capture(&ast.calls()), Ok(ast));
}

use item_collection::app::ModelId;
use item_collection::attribute::{
    copy_attribute, ddb_to_val, ddb_ty, ddb_val, frame_variant, is_readable, split_variant,
    try_ddb_to_val, AttributeValue, Payload, ScalarAttributeType,
};
use item_collection::checked_plans::check_storable;
use item_collection::stmt::{Id, Type, Value, ValueEnum};

fn s(text: &str) -> AttributeValue {
    AttributeValue::S(text.to_string())
}

fn n(text: &str) -> AttributeValue {
    AttributeValue::N(text.to_string())
}

fn text(text: &str) -> Value {
    Value::String(text.to_string())
}

#[test]
fn values_become_attributes() {
    assert_eq!(ddb_val(&Value::Bool(true)), AttributeValue::Bool(true));
    assert_eq!(ddb_val(&text("hello")), s("hello"));
    assert_eq!(ddb_val(&Value::I8(-128)), n("-128"));
    assert_eq!(ddb_val(&Value::I16(300)), n("300"));
    assert_eq!(ddb_val(&Value::I32(-70000)), n("-70000"));
    assert_eq!(ddb_val(&Value::I64(i64::MIN)), n("-9223372036854775808"));
    assert_eq!(ddb_val(&Value::U8(255)), n("255"));
    assert_eq!(ddb_val(&Value::U16(65535)), n("65535"));
    assert_eq!(ddb_val(&Value::U32(7)), n("7"));
    assert_eq!(ddb_val(&Value::U64(u64::MAX)), n("18446744073709551615"));
    assert_eq!(
        ddb_val(&Value::Bytes(vec![0, 1, 255])),
        AttributeValue::B(vec![0, 1, 255])
    );
    assert_eq!(
        ddb_val(&Value::Id(Id { model: ModelId(3), text: "u1".to_string() })),
        s("u1")
    );
}

#[test]
fn uuids_are_hyphenated_in_lower_case() {
    let x: u128 = 0xa1a2a3a4b1b2c1c2d1d2d3d4d5d6d7d8;
    assert_eq!(
        ddb_val(&Value::Uuid(x)),
        s("a1a2a3a4-b1b2-c1c2-d1d2-d3d4d5d6d7d8")
    );
    assert_eq!(
        ddb_val(&Value::Uuid(0)),
        s("00000000-0000-0000-0000-000000000000")
    );
}

#[test]
fn uuids_are_read_in_any_form() {
    let x: u128 = 0x67e5504410b1426f9247bb680e5fe0c8;
    for form in [
        "67e55044-10b1-426f-9247-bb680e5fe0c8",
        "67E5504410B1426F9247BB680E5FE0C8",
        "urn:uuid:67e55044-10b1-426f-9247-bb680e5fe0c8",
        "{67e55044-10b1-426f-9247-bb680e5fe0c8}",
    ] {
        assert_eq!(ddb_to_val(&Type::Uuid, &s(form)), Value::Uuid(x));
    }
    assert_eq!(try_ddb_to_val(&Type::Uuid, &s("67e55044")), None);
    assert!(!is_readable(&Type::Uuid, &s("not a uuid")));
}

#[test]
fn variants_carry_one_payload() {
    let bare = Value::Enum(ValueEnum { variant: 2, fields: vec![] });
    assert_eq!(ddb_val(&bare), AttributeValue::Enum(2, Payload::Null));
    let id = Id { model: ModelId(4), text: "x".to_string() };
    let full = Value::Enum(ValueEnum { variant: 1, fields: vec![Value::Id(id)] });
    assert_eq!(
        ddb_val(&full),
        AttributeValue::Enum(1, Payload::Id(4, "x".to_string()))
    );
}

fn all_typed() -> Vec<(Type, Value)> {
    vec![
        (Type::Bool, Value::Bool(false)),
        (Type::String, text("a#b")),
        (Type::I8, Value::I8(i8::MIN)),
        (Type::I16, Value::I16(i16::MIN)),
        (Type::I32, Value::I32(i32::MAX)),
        (Type::I64, Value::I64(i64::MAX)),
        (Type::U8, Value::U8(u8::MAX)),
        (Type::U16, Value::U16(0)),
        (Type::U32, Value::U32(u32::MAX)),
        (Type::U64, Value::U64(u64::MAX)),
        (Type::Bytes, Value::Bytes(vec![9, 8])),
        (Type::Uuid, Value::Uuid(0x0123456789abcdef0123456789abcdef)),
        (
            Type::Id(ModelId(7)),
            Value::Id(Id { model: ModelId(7), text: "k".to_string() }),
        ),
        (
            Type::Enum(0),
            Value::Enum(ValueEnum { variant: 0, fields: vec![] }),
        ),
    ]
}

fn payloads() -> Vec<Value> {
    vec![
        Value::Bool(true),
        text("p"),
        Value::I8(-1),
        Value::I16(-2),
        Value::I32(-3),
        Value::I64(-4),
        Value::U8(1),
        Value::U16(2),
        Value::U32(3),
        Value::U64(4),
        Value::Id(Id { model: ModelId(1), text: "i".to_string() }),
    ]
}

#[test]
fn values_are_read_back() {
    for (ty, value) in all_typed() {
        let attribute = ddb_val(&value);
        assert_eq!(ddb_to_val(&ty, &attribute), value);
        assert_eq!(try_ddb_to_val(&ty, &copy_attribute(&attribute)), Some(value));
    }
    for payload in payloads() {
        let value = Value::Enum(ValueEnum { variant: 5, fields: vec![payload] });
        let attribute = ddb_val(&value);
        assert_eq!(ddb_to_val(&Type::Enum(0), &attribute), value);
        assert_eq!(copy_attribute(&attribute), attribute);
    }
}

#[test]
fn attributes_of_another_type_are_not_read() {
    assert_eq!(try_ddb_to_val(&Type::Bool, &s("true")), None);
    assert_eq!(try_ddb_to_val(&Type::I8, &n("128")), None);
    assert_eq!(try_ddb_to_val(&Type::I8, &n("-128")), Some(Value::I8(-128)));
    assert_eq!(try_ddb_to_val(&Type::U8, &n("256")), None);
    assert_eq!(try_ddb_to_val(&Type::U8, &n("-1")), None);
    assert_eq!(try_ddb_to_val(&Type::I64, &n("1.5")), None);
    assert_eq!(try_ddb_to_val(&Type::Null, &s("")), None);
    assert_eq!(try_ddb_to_val(&Type::Enum(1), &s("0#\"Null\"")), None);
}

#[test]
fn some_values_cannot_be_stored() {
    assert!(!check_storable(&Value::Null));
    assert!(!check_storable(&Value::Record(vec![])));
    let two = Value::Enum(ValueEnum { variant: 0, fields: vec![text("a"), text("b")] });
    assert!(!check_storable(&two));
    let nested = Value::Enum(ValueEnum { variant: 0, fields: vec![Value::Uuid(1)] });
    assert!(!check_storable(&nested));
    assert!(check_storable(&Value::Uuid(1)));
}

#[test]
fn variants_are_framed_and_split() {
    assert_eq!(frame_variant(3, "{\"I8\":5}"), "3#{\"I8\":5}");
    assert_eq!(
        split_variant("3#{\"I8\":5}"),
        Some((3, "{\"I8\":5}".to_string()))
    );
    assert_eq!(
        split_variant(&frame_variant(0, "\"a#b\"")),
        Some((0, "\"a#b\"".to_string()))
    );
    assert_eq!(split_variant("3"), None);
    assert_eq!(split_variant("x#y"), None);
    assert_eq!(split_variant("99999999999999999999999#y"), None);
}

#[test]
fn keys_are_text_or_numbers() {
    assert_eq!(ddb_ty(&Type::Bool), ScalarAttributeType::N);
    assert_eq!(ddb_ty(&Type::String), ScalarAttributeType::S);
    assert_eq!(ddb_ty(&Type::Enum(0)), ScalarAttributeType::S);
    assert_eq!(ddb_ty(&Type::I8), ScalarAttributeType::N);
    assert_eq!(ddb_ty(&Type::I16), ScalarAttributeType::N);
    assert_eq!(ddb_ty(&Type::I32), ScalarAttributeType::N);
    assert_eq!(ddb_ty(&Type::I64), ScalarAttributeType::N);
    assert_eq!(ddb_ty(&Type::Id(ModelId(0))), ScalarAttributeType::S);
}

//! Values as the attributes of stored items.

use crate::app::ModelId;
use crate::delimited::{self, DELIMITER};
use crate::stmt::{Id, Type, Value, ValueEnum, ValueView, value_views};
use crate::text;
use crate::uuid_text::{format_uuid, parse_uuid, uuid_of, uuid_text};
use vstd::prelude::*;

verus! {

/// What a variant of an enumeration carries.
#[derive(Debug, PartialEq, Eq)]
pub enum Payload {
    Bool(bool),
    Null,
    String(String),
    I8(i8),
    I16(i16),
    I32(i32),
    I64(i64),
    U8(u8),
    U16(u16),
    U32(u32),
    U64(u64),
    Id(usize, String),
}

/// An attribute of a stored item.
#[derive(Debug, PartialEq, Eq)]
pub enum AttributeValue {
    Bool(bool),
    /// Text
    S(String),
    /// A number, as a numeral
    N(String),
    /// Bytes
    B(Vec<u8>),
    /// A variant of an enumeration and what it carries, stored as text
    Enum(usize, Payload),
}

/// The type of an attribute that is part of a key.
#[derive(Clone, Copy, PartialEq, Eq, Structural, Debug)]
pub enum ScalarAttributeType {
    B,
    N,
    S,
}

/// What an attribute says. The payload of a variant is said as a value, where
/// null stands for no payload.
pub enum AttributeView {
    Bool(bool),
    S(Seq<char>),
    N(Seq<char>),
    B(Seq<u8>),
    Enum(usize, ValueView),
}

impl View for Payload {
    type V = ValueView;

    open spec fn view(&self) -> ValueView {
        match self {
            Payload::Bool(v) => ValueView::Bool(*v),
            Payload::Null => ValueView::Null,
            Payload::String(v) => ValueView::String(v@),
            Payload::I8(v) => ValueView::I8(*v),
            Payload::I16(v) => ValueView::I16(*v),
            Payload::I32(v) => ValueView::I32(*v),
            Payload::I64(v) => ValueView::I64(*v),
            Payload::U8(v) => ValueView::U8(*v),
            Payload::U16(v) => ValueView::U16(*v),
            Payload::U32(v) => ValueView::U32(*v),
            Payload::U64(v) => ValueView::U64(*v),
            Payload::Id(model, v) => ValueView::Id(ModelId(*model), v@),
        }
    }
}

impl View for AttributeValue {
    type V = AttributeView;

    open spec fn view(&self) -> AttributeView {
        match self {
            AttributeValue::Bool(v) => AttributeView::Bool(*v),
            AttributeValue::S(v) => AttributeView::S(v@),
            AttributeValue::N(v) => AttributeView::N(v@),
            AttributeValue::B(v) => AttributeView::B(v@),
            AttributeValue::Enum(variant, v) => AttributeView::Enum(*variant, v@),
        }
    }
}

/// Whether a value can be the payload of a variant.
pub open spec fn is_payload(v: ValueView) -> bool {
    match v {
        ValueView::Null
        | ValueView::Bytes(_)
        | ValueView::Uuid(_)
        | ValueView::Enum(_, _)
        | ValueView::Record(_) => false,
        _ => true,
    }
}

/// Whether a value can be stored as an attribute.
///
/// A variant of an enumeration can if it carries nothing or one plain value.
pub open spec fn is_storable(v: ValueView) -> bool {
    match v {
        ValueView::Null | ValueView::Record(_) => false,
        ValueView::Enum(_, fields) => fields.len() == 0 || (fields.len() == 1 && is_payload(
            fields[0],
        )),
        _ => true,
    }
}

/// The attribute that stores a value.
pub open spec fn attribute_of(v: ValueView) -> AttributeView {
    match v {
        ValueView::Bool(b) => AttributeView::Bool(b),
        ValueView::String(s) => AttributeView::S(s),
        ValueView::I8(n) => AttributeView::N(text::signed_decimal(n as int)),
        ValueView::I16(n) => AttributeView::N(text::signed_decimal(n as int)),
        ValueView::I32(n) => AttributeView::N(text::signed_decimal(n as int)),
        ValueView::I64(n) => AttributeView::N(text::signed_decimal(n as int)),
        ValueView::U8(n) => AttributeView::N(text::decimal(n as nat)),
        ValueView::U16(n) => AttributeView::N(text::decimal(n as nat)),
        ValueView::U32(n) => AttributeView::N(text::decimal(n as nat)),
        ValueView::U64(n) => AttributeView::N(text::decimal(n as nat)),
        ValueView::Bytes(b) => AttributeView::B(b),
        ValueView::Uuid(x) => AttributeView::S(uuid_text(x)),
        ValueView::Id(_, s) => AttributeView::S(s),
        ValueView::Enum(variant, fields) => AttributeView::Enum(
            variant,
            if fields.len() == 0 {
                ValueView::Null
            } else {
                fields[0]
            },
        ),
        ValueView::Null | ValueView::Record(_) => arbitrary(),
    }
}

/// The value of the given type that an attribute stores.
pub open spec fn value_of(ty: Type, attribute: AttributeView) -> Option<ValueView> {
    match (ty, attribute) {
        (Type::Bool, AttributeView::Bool(b)) => Some(ValueView::Bool(b)),
        (Type::String, AttributeView::S(s)) => Some(ValueView::String(s)),
        (Type::I8, AttributeView::N(s)) => match text::signed_value(s) {
            Some(n) => if i8::MIN <= n <= i8::MAX {
                Some(ValueView::I8(n as i8))
            } else {
                None
            },
            None => None,
        },
        (Type::I16, AttributeView::N(s)) => match text::signed_value(s) {
            Some(n) => if i16::MIN <= n <= i16::MAX {
                Some(ValueView::I16(n as i16))
            } else {
                None
            },
            None => None,
        },
        (Type::I32, AttributeView::N(s)) => match text::signed_value(s) {
            Some(n) => if i32::MIN <= n <= i32::MAX {
                Some(ValueView::I32(n as i32))
            } else {
                None
            },
            None => None,
        },
        (Type::I64, AttributeView::N(s)) => match text::signed_value(s) {
            Some(n) => if i64::MIN <= n <= i64::MAX {
                Some(ValueView::I64(n as i64))
            } else {
                None
            },
            None => None,
        },
        (Type::U8, AttributeView::N(s)) => match text::unsigned_value(s) {
            Some(n) => if n <= u8::MAX {
                Some(ValueView::U8(n as u8))
            } else {
                None
            },
            None => None,
        },
        (Type::U16, AttributeView::N(s)) => match text::unsigned_value(s) {
            Some(n) => if n <= u16::MAX {
                Some(ValueView::U16(n as u16))
            } else {
                None
            },
            None => None,
        },
        (Type::U32, AttributeView::N(s)) => match text::unsigned_value(s) {
            Some(n) => if n <= u32::MAX {
                Some(ValueView::U32(n as u32))
            } else {
                None
            },
            None => None,
        },
        (Type::U64, AttributeView::N(s)) => match text::unsigned_value(s) {
            Some(n) => if n <= u64::MAX {
                Some(ValueView::U64(n as u64))
            } else {
                None
            },
            None => None,
        },
        (Type::Bytes, AttributeView::B(b)) => Some(ValueView::Bytes(b)),
        (Type::Uuid, AttributeView::S(s)) => match uuid_of(s) {
            Some(x) => Some(ValueView::Uuid(x)),
            None => None,
        },
        (Type::Id(model), AttributeView::S(s)) => Some(ValueView::Id(model, s)),
        (Type::Enum(_), AttributeView::Enum(variant, payload)) => Some(
            ValueView::Enum(
                variant,
                if payload is Null {
                    Seq::empty()
                } else {
                    seq![payload]
                },
            ),
        ),
        _ => None,
    }
}

/// Whether a value is of the given type.
pub open spec fn has_type(ty: Type, v: ValueView) -> bool {
    match (ty, v) {
        (Type::Bool, ValueView::Bool(_)) => true,
        (Type::String, ValueView::String(_)) => true,
        (Type::I8, ValueView::I8(_)) => true,
        (Type::I16, ValueView::I16(_)) => true,
        (Type::I32, ValueView::I32(_)) => true,
        (Type::I64, ValueView::I64(_)) => true,
        (Type::U8, ValueView::U8(_)) => true,
        (Type::U16, ValueView::U16(_)) => true,
        (Type::U32, ValueView::U32(_)) => true,
        (Type::U64, ValueView::U64(_)) => true,
        (Type::Bytes, ValueView::Bytes(_)) => true,
        (Type::Uuid, ValueView::Uuid(_)) => true,
        (Type::Id(model), ValueView::Id(m, _)) => model == m,
        (Type::Enum(_), ValueView::Enum(_, _)) => true,
        _ => false,
    }
}

/// Whether an attribute is one in which a value of the given type is stored.
pub open spec fn is_written(ty: Type, attribute: AttributeView) -> bool {
    exists|v: ValueView|
        has_type(ty, v) && is_storable(v) && attribute == #[trigger] attribute_of(v)
}

/// The text of a variant and its payload, as it is stored.
pub open spec fn framed(variant: usize, payload: Seq<char>) -> Seq<char> {
    text::decimal(variant as nat).push(DELIMITER) + payload
}

/// The variant and the payload that a stored text holds.
pub open spec fn unframed(s: Seq<char>) -> Option<(usize, Seq<char>)> {
    match delimited::cut(s) {
        Some((head, payload)) => match text::unsigned_value(head) {
            Some(n) => if n <= usize::MAX {
                Some((n as usize, payload))
            } else {
                None
            },
            None => None,
        },
        None => None,
    }
}

/// A variant and its payload can be read back from the text in which they
/// are stored, whatever the payload holds.
pub proof fn law_frame_round_trip(variant: usize, payload: Seq<char>)
    ensures
        unframed(framed(variant, payload)) == Some((variant, payload)),
{
    let head = text::decimal(variant as nat);
    text::lemma_decimal_digits(variant as nat);
    text::law_unsigned_round_trip(variant as nat);
    assert(delimited::delimiter_free(head)) by {
        if head.contains(DELIMITER) {
            let i = head.index_of(DELIMITER);
            assert(text::is_digit(head[i]));
        }
    }
    delimited::lemma_cut(head, payload);
}

/// Writes a variant, whose payload is already text.
pub fn frame_variant(variant: usize, payload: &str) -> (r: String)
    ensures
        r@ == framed(variant, payload@),
{
    let mut r = text::unsigned_text(variant as u64);
    delimited::append_terminated(&mut r, "");
    r.append(payload);
    proof {
        reveal_strlit("");
    }
    assert(r@ =~= framed(variant, payload@));
    r
}

/// Reads a variant, whose payload stays text.
pub fn split_variant(s: &str) -> (r: Option<(usize, String)>)
    ensures
        match (r, unframed(s@)) {
            (Some(a), Some(b)) => a.0 == b.0 && a.1@ == b.1,
            (None, None) => true,
            _ => false,
        },
{
    match delimited::split_once(s) {
        Some((head, payload)) => {
            match text::parse_unsigned(head.as_str()) {
                Some(n) => {
                    if n <= usize::MAX as u64 {
                        Some((n as usize, payload))
                    } else {
                        None
                    }
                },
                None => None,
            }
        },
        None => None,
    }
}

/// Whether values of the type can be part of a key.
pub open spec fn is_key_type(ty: Type) -> bool {
    match ty {
        Type::Bool
        | Type::String
        | Type::Enum(_)
        | Type::I8
        | Type::I16
        | Type::I32
        | Type::I64
        | Type::Id(_) => true,
        _ => false,
    }
}

/// The attribute type of a key of the given type.
pub open spec fn key_attribute_type(ty: Type) -> ScalarAttributeType {
    match ty {
        Type::String | Type::Enum(_) | Type::Id(_) => ScalarAttributeType::S,
        _ => ScalarAttributeType::N,
    }
}

/// The attribute type of a key of the given type.
pub fn ddb_ty(ty: &Type) -> (r: ScalarAttributeType)
    requires
        is_key_type(*ty),
    ensures
        r == key_attribute_type(*ty),
{
    match ty {
        Type::Bool => ScalarAttributeType::N,
        Type::String | Type::Enum(_) => ScalarAttributeType::S,
        Type::I8 | Type::I16 | Type::I32 | Type::I64 => ScalarAttributeType::N,
        _ => ScalarAttributeType::S,
    }
}

/// A copy of bytes.
fn copy_bytes(bytes: &Vec<u8>) -> (r: Vec<u8>)
    ensures
        r@ == bytes@,
{
    let mut r: Vec<u8> = Vec::new();
    let mut i: usize = 0;
    while i < bytes.len()
        invariant
            i <= bytes@.len(),
            r@ == bytes@.take(i as int),
        decreases bytes@.len() - i,
    {
        r.push(bytes[i]);
        assert(bytes@.take(i + 1) =~= bytes@.take(i as int).push(bytes@[i as int]));
        i = i + 1;
    }
    assert(bytes@.take(i as int) =~= bytes@);
    r
}

/// A copy of a payload.
fn copy_payload(payload: &Payload) -> (r: Payload)
    ensures
        r@ == payload@,
{
    match payload {
        Payload::Bool(v) => Payload::Bool(*v),
        Payload::Null => Payload::Null,
        Payload::String(v) => Payload::String(v.clone()),
        Payload::I8(v) => Payload::I8(*v),
        Payload::I16(v) => Payload::I16(*v),
        Payload::I32(v) => Payload::I32(*v),
        Payload::I64(v) => Payload::I64(*v),
        Payload::U8(v) => Payload::U8(*v),
        Payload::U16(v) => Payload::U16(*v),
        Payload::U32(v) => Payload::U32(*v),
        Payload::U64(v) => Payload::U64(*v),
        Payload::Id(model, v) => Payload::Id(*model, v.clone()),
    }
}

/// A copy of an attribute.
pub fn copy_attribute(attribute: &AttributeValue) -> (r: AttributeValue)
    ensures
        r@ == attribute@,
{
    match attribute {
        AttributeValue::Bool(v) => AttributeValue::Bool(*v),
        AttributeValue::S(v) => AttributeValue::S(v.clone()),
        AttributeValue::N(v) => AttributeValue::N(v.clone()),
        AttributeValue::B(v) => AttributeValue::B(copy_bytes(v)),
        AttributeValue::Enum(variant, v) => AttributeValue::Enum(*variant, copy_payload(v)),
    }
}

/// The attribute that stores a value.
pub fn ddb_val(val: &Value) -> (r: AttributeValue)
    requires
        is_storable(val@),
    ensures
        r@ == attribute_of(val@),
{
    match val {
        Value::Bool(val) => AttributeValue::Bool(*val),
        Value::String(val) => AttributeValue::S(val.clone()),
        Value::I8(val) => AttributeValue::N(text::signed_text(*val as i64)),
        Value::I16(val) => AttributeValue::N(text::signed_text(*val as i64)),
        Value::I32(val) => AttributeValue::N(text::signed_text(*val as i64)),
        Value::I64(val) => AttributeValue::N(text::signed_text(*val)),
        Value::U8(val) => AttributeValue::N(text::unsigned_text(*val as u64)),
        Value::U16(val) => AttributeValue::N(text::unsigned_text(*val as u64)),
        Value::U32(val) => AttributeValue::N(text::unsigned_text(*val as u64)),
        Value::U64(val) => AttributeValue::N(text::unsigned_text(*val)),
        Value::Bytes(val) => AttributeValue::B(copy_bytes(val)),
        Value::Uuid(val) => AttributeValue::S(format_uuid(*val)),
        Value::Id(val) => AttributeValue::S(val.text.clone()),
        Value::Enum(val) => AttributeValue::Enum(val.variant, ddb_payload(&val.fields)),
        _ => vstd::pervasive::unreached(),
    }
}

/// What a variant with the given fields carries.
fn ddb_payload(fields: &Vec<Value>) -> (r: Payload)
    requires
        fields@.len() == 0 || (fields@.len() == 1 && is_payload(fields@[0]@)),
    ensures
        r@ == (if fields@.len() == 0 {
            ValueView::Null
        } else {
            fields@[0]@
        }),
{
    if fields.len() == 0 {
        Payload::Null
    } else {
        match &fields[0] {
            Value::Bool(v) => Payload::Bool(*v),
            Value::String(v) => Payload::String(v.clone()),
            Value::I8(v) => Payload::I8(*v),
            Value::I16(v) => Payload::I16(*v),
            Value::I32(v) => Payload::I32(*v),
            Value::I64(v) => Payload::I64(*v),
            Value::U8(v) => Payload::U8(*v),
            Value::U16(v) => Payload::U16(*v),
            Value::U32(v) => Payload::U32(*v),
            Value::U64(v) => Payload::U64(*v),
            Value::Id(id) => Payload::Id(id.model.0, id.text.clone()),
            _ => vstd::pervasive::unreached(),
        }
    }
}

/// The fields of a variant that carries the given payload.
fn payload_fields(v: &Payload) -> (r: Vec<Value>)
    ensures
        value_views(r@) == (if v@ is Null {
            Seq::empty()
        } else {
            seq![v@]
        }),
{
    let value = match v {
        Payload::Bool(v) => Value::Bool(*v),
        Payload::Null => Value::Null,
        Payload::String(v) => Value::String(v.clone()),
        Payload::Id(model, v) => Value::Id(Id { model: ModelId(*model), text: v.clone() }),
        Payload::I8(v) => Value::I8(*v),
        Payload::I16(v) => Value::I16(*v),
        Payload::I32(v) => Value::I32(*v),
        Payload::I64(v) => Value::I64(*v),
        Payload::U8(v) => Value::U8(*v),
        Payload::U16(v) => Value::U16(*v),
        Payload::U32(v) => Value::U32(*v),
        Payload::U64(v) => Value::U64(*v),
    };
    let ghost view = value@;
    let mut fields: Vec<Value> = Vec::new();
    if !value.is_null() {
        fields.push(value);
    }
    assert(value_views(fields@) =~= (if view is Null {
        Seq::empty()
    } else {
        seq![view]
    }));
    fields
}

/// Whether the identifier, if the value is one, is read from the text in which it is
/// written.
///
/// The `uuid` crate does so for all of them, as `parse_uuid` says.
pub open spec fn uuid_reads_back(v: ValueView) -> bool {
    v matches ValueView::Uuid(x) ==> uuid_of(uuid_text(x)) == Some(x)
}

/// What was stored is read back.
proof fn lemma_read_back(ty: Type, attribute: AttributeView)
    ensures
        forall|v: ValueView|
            has_type(ty, v) && is_storable(v) && uuid_reads_back(v) && attribute
                == #[trigger] attribute_of(v) ==> value_of(ty, attribute) == Some(v),
{
    assert forall|v: ValueView|
        has_type(ty, v) && is_storable(v) && uuid_reads_back(v) && attribute
            == #[trigger] attribute_of(v) implies value_of(ty, attribute) == Some(v) by {
        match v {
            ValueView::I8(n) => text::law_signed_round_trip(n as int),
            ValueView::I16(n) => text::law_signed_round_trip(n as int),
            ValueView::I32(n) => text::law_signed_round_trip(n as int),
            ValueView::I64(n) => text::law_signed_round_trip(n as int),
            ValueView::U8(n) => text::law_unsigned_round_trip(n as nat),
            ValueView::U16(n) => text::law_unsigned_round_trip(n as nat),
            ValueView::U32(n) => text::law_unsigned_round_trip(n as nat),
            ValueView::U64(n) => text::law_unsigned_round_trip(n as nat),
            ValueView::Enum(variant, fields) => {
                if fields.len() == 0 {
                    assert(fields =~= Seq::empty());
                } else {
                    assert(fields =~= seq![fields[0]]);
                }
            },
            _ => {},
        }
    }
}

/// The value of the given type that an attribute stores.
///
/// What `ddb_val` has stored is read back.
pub fn ddb_to_val(ty: &Type, val: &AttributeValue) -> (r: Value)
    requires
        value_of(*ty, val@) is Some || is_written(*ty, val@),
    ensures
        value_of(*ty, val@) == Some(r@),
        forall|v: ValueView|
            has_type(*ty, v) && is_storable(v) && val@ == #[trigger] attribute_of(v) ==> r@ == v,
{
    proof {
        lemma_read_back(*ty, val@);
    }
    match (ty, val) {
        (Type::Bool, AttributeValue::Bool(val)) => Value::Bool(*val),
        (Type::String, AttributeValue::S(val)) => Value::String(val.clone()),
        (Type::I8, AttributeValue::N(val)) => Value::I8(signed(val) as i8),
        (Type::I16, AttributeValue::N(val)) => Value::I16(signed(val) as i16),
        (Type::I32, AttributeValue::N(val)) => Value::I32(signed(val) as i32),
        (Type::I64, AttributeValue::N(val)) => Value::I64(signed(val)),
        (Type::U8, AttributeValue::N(val)) => Value::U8(unsigned(val) as u8),
        (Type::U16, AttributeValue::N(val)) => Value::U16(unsigned(val) as u16),
        (Type::U32, AttributeValue::N(val)) => Value::U32(unsigned(val) as u32),
        (Type::U64, AttributeValue::N(val)) => Value::U64(unsigned(val)),
        (Type::Bytes, AttributeValue::B(val)) => Value::Bytes(copy_bytes(val)),
        (Type::Uuid, AttributeValue::S(val)) => Value::Uuid(parse_uuid(val.as_str()).unwrap()),
        (Type::Id(model), AttributeValue::S(val)) => Value::Id(
            Id { model: *model, text: val.clone() },
        ),
        (Type::Enum(_), AttributeValue::Enum(variant, payload)) => {
            let fields = payload_fields(payload);
            let r = Value::Enum(ValueEnum { variant: *variant, fields });
            assert(r@->Enum_1 =~= value_views(fields@));
            r
        },
        _ => vstd::pervasive::unreached(),
    }
}

/// The number that a numeral stands for.
fn signed(s: &String) -> (r: i64)
    requires
        text::signed_value(s@) matches Some(n) && i64::MIN <= n <= i64::MAX,
    ensures
        text::signed_value(s@) == Some(r as int),
{
    text::parse_signed(s.as_str()).unwrap()
}

/// The number that a numeral without a sign stands for.
fn unsigned(s: &String) -> (r: u64)
    requires
        text::unsigned_value(s@) matches Some(n) && n <= u64::MAX,
    ensures
        text::unsigned_value(s@) == Some(r as nat),
{
    text::parse_unsigned(s.as_str()).unwrap()
}

/// Whether a numeral stands for a number within bounds.
fn is_signed(s: &String, least: i64, most: i64) -> (r: bool)
    ensures
        r == (text::signed_value(s@) matches Some(n) && least <= n <= most),
{
    match text::parse_signed(s.as_str()) {
        Some(n) => least <= n && n <= most,
        None => false,
    }
}

/// Whether a numeral without a sign stands for a number within a bound.
fn is_unsigned(s: &String, most: u64) -> (r: bool)
    ensures
        r == (text::unsigned_value(s@) matches Some(n) && n <= most),
{
    match text::parse_unsigned(s.as_str()) {
        Some(n) => n <= most,
        None => false,
    }
}

/// Whether an attribute stores a value of the given type.
pub fn is_readable(ty: &Type, val: &AttributeValue) -> (r: bool)
    ensures
        r == value_of(*ty, val@) is Some,
        is_written(*ty, val@) ==> r,
{
    proof {
        lemma_read_back(*ty, val@);
    }
    match (ty, val) {
        (Type::Bool, AttributeValue::Bool(_)) => true,
        (Type::String, AttributeValue::S(_)) => true,
        (Type::I8, AttributeValue::N(val)) => is_signed(val, i8::MIN as i64, i8::MAX as i64),
        (Type::I16, AttributeValue::N(val)) => is_signed(val, i16::MIN as i64, i16::MAX as i64),
        (Type::I32, AttributeValue::N(val)) => is_signed(val, i32::MIN as i64, i32::MAX as i64),
        (Type::I64, AttributeValue::N(val)) => is_signed(val, i64::MIN, i64::MAX),
        (Type::U8, AttributeValue::N(val)) => is_unsigned(val, u8::MAX as u64),
        (Type::U16, AttributeValue::N(val)) => is_unsigned(val, u16::MAX as u64),
        (Type::U32, AttributeValue::N(val)) => is_unsigned(val, u32::MAX as u64),
        (Type::U64, AttributeValue::N(val)) => is_unsigned(val, u64::MAX),
        (Type::Bytes, AttributeValue::B(_)) => true,
        (Type::Uuid, AttributeValue::S(val)) => parse_uuid(val.as_str()).is_some(),
        (Type::Id(_), AttributeValue::S(_)) => true,
        (Type::Enum(_), AttributeValue::Enum(_, _)) => true,
        _ => false,
    }
}

/// The value of the given type that an attribute stores, if it stores one.
///
/// What `ddb_val` has stored is read back.
pub fn try_ddb_to_val(ty: &Type, val: &AttributeValue) -> (r: Option<Value>)
    ensures
        match r {
            Some(v) => value_of(*ty, val@) == Some(v@),
            None => value_of(*ty, val@) is None,
        },
        forall|v: ValueView|
            has_type(*ty, v) && is_storable(v) && val@ == #[trigger] attribute_of(v) ==> r is Some
                && r->0@ == v,
{
    if is_readable(ty, val) {
        Some(ddb_to_val(ty, val))
    } else {
        None
    }
}

} // verus!

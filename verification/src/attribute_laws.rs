//! What attributes say of the values that they store.

use crate::attribute::{
    AttributeView, attribute_of, framed, has_type, is_key_type, is_storable, key_attribute_type,
    unframed, value_of,
};
use crate::connection::{UrlView, endpoint_at, wrong_scheme};
use crate::create_laws::{can_be_key, is_type_of_key};
use crate::stmt::{Type, ValueView};
use crate::text::{
    decimal, digits_value, law_signed_round_trip, lemma_decimal_digits, numeral_value,
    signed_decimal, signed_value, unsigned_value,
};
use vstd::prelude::*;

verus! {

/// The number that a value is, if it is one.
pub open spec fn number_of(v: ValueView) -> Option<int> {
    match v {
        ValueView::I8(n) => Some(n as int),
        ValueView::I16(n) => Some(n as int),
        ValueView::I32(n) => Some(n as int),
        ValueView::I64(n) => Some(n as int),
        ValueView::U8(n) => Some(n as int),
        ValueView::U16(n) => Some(n as int),
        ValueView::U32(n) => Some(n as int),
        ValueView::U64(n) => Some(n as int),
        _ => None,
    }
}

/// Whether a text is the decimal numeral of a number: its digits from the left to the
/// right, without leading zeros.
pub open spec fn is_numeral(s: Seq<char>, n: nat) -> bool
    decreases n,
{
    if n < 10 {
        s == seq!["0123456789"@[n as int]]
    } else {
        &&& s.len() > 1
        &&& s.last() == "0123456789"@[(n % 10) as int]
        &&& is_numeral(s.drop_last(), n / 10)
    }
}

/// Numbers are written as their decimal numerals.
pub proof fn law_decimal_is_numeral(n: nat)
    ensures
        is_numeral(decimal(n), n),
    decreases n,
{
    reveal_strlit("0123456789");
    if n >= 10 {
        law_decimal_is_numeral(n / 10);
        lemma_decimal_digits(n / 10);
        assert(decimal(n).drop_last() =~= decimal(n / 10));
    }
}

/// A digit behind a numeral makes ten times the number and the digit of it. A text that is
/// empty or holds anything else stands for no number.
pub proof fn law_numeral_is_read_by_digits(s: Seq<char>, c: char)
    ensures
        numeral_value(Seq::empty()) is None,
        forall|d: int|
            0 <= d < 10 && c == #[trigger] "0123456789"@[d] ==> {
                &&& numeral_value(seq![c]) == Some(d as nat)
                &&& numeral_value(s) is Some ==> numeral_value(s.push(c)) == Some(
                    (10 * numeral_value(s)->0 + d) as nat,
                )
            },
        !"0123456789"@.contains(c) ==> numeral_value(s.push(c)) is None,
        s.len() > 0 && numeral_value(s) is None ==> numeral_value(s.push(c)) is None,
{
    reveal_strlit("0123456789");
    reveal_with_fuel(digits_value, 2);
    assert(s.push(c).drop_last() =~= s);
    assert(seq![c].drop_last() =~= Seq::empty());
    if !"0123456789"@.contains(c) {
        assert(!crate::text::is_digit(c)) by {
            if crate::text::is_digit(c) {
                let d = c as int - 48;
                assert("0123456789"@[d] == c);
            }
        }
    }
}

/// A plus sign before a numeral changes nothing, and a minus sign the sign of the number.
pub proof fn law_sign_is_read(s: Seq<char>)
    requires
        s.len() > 0,
        s[0] != '+',
        s[0] != '-',
    ensures
        unsigned_value(s) == numeral_value(s),
        unsigned_value(seq!['+'] + s) == numeral_value(s),
        unsigned_value(seq!['-'] + s) is None,
        match numeral_value(s) {
            Some(n) => {
                &&& signed_value(s) == Some(n as int)
                &&& signed_value(seq!['+'] + s) == Some(n as int)
                &&& signed_value(seq!['-'] + s) == Some(-(n as int))
            },
            None => {
                &&& signed_value(s) is None
                &&& signed_value(seq!['+'] + s) is None
                &&& signed_value(seq!['-'] + s) is None
            },
        },
{
    assert((seq!['+'] + s).skip(1) =~= s);
    assert((seq!['-'] + s).skip(1) =~= s);
    lemma_minus_is_no_digit(s);
}

proof fn lemma_minus_is_no_digit(s: Seq<char>)
    ensures
        digits_value(seq!['-'] + s) is None,
    decreases s.len(),
{
    let all = seq!['-'] + s;
    if s.len() == 0 {
        assert(all.last() == '-');
    } else {
        lemma_minus_is_no_digit(s.drop_last());
        assert(all.drop_last() =~= seq!['-'] + s.drop_last());
    }
}

/// An attribute says the value that it stores: text and identifiers of models as text,
/// truth values and bytes as they are, numbers as decimal numerals with a minus sign before
/// negative ones, and variants by their number with the one value that they carry, if any.
pub proof fn law_attribute_says_value(v: ValueView)
    ensures
        v matches ValueView::String(s) ==> attribute_of(v) == AttributeView::S(s),
        v matches ValueView::Id(_, s) ==> attribute_of(v) == AttributeView::S(s),
        v matches ValueView::Bool(b) ==> attribute_of(v) == AttributeView::Bool(b),
        v matches ValueView::Bytes(b) ==> attribute_of(v) == AttributeView::B(b),
        v matches ValueView::Uuid(x) ==> attribute_of(v) is S,
        v matches ValueView::Enum(variant, fields) ==> {
            &&& fields.len() == 0 ==> attribute_of(v) == AttributeView::Enum(
                variant,
                ValueView::Null,
            )
            &&& fields.len() == 1 ==> attribute_of(v) == AttributeView::Enum(variant, fields[0])
        },
        number_of(v) matches Some(n) ==> {
            let s = attribute_of(v)->N_0;
            &&& attribute_of(v) is N
            &&& signed_value(s) == Some(n)
            &&& n >= 0 ==> is_numeral(s, n as nat)
            &&& n < 0 ==> s.len() > 0 && s[0] == '-' && is_numeral(s.skip(1), (-n) as nat)
        },
{
    match number_of(v) {
        Some(n) => {
            let s = attribute_of(v)->N_0;
            assert(s == signed_decimal(n));
            law_signed_round_trip(n);
            if n < 0 {
                law_decimal_is_numeral((-n) as nat);
                assert(s.skip(1) =~= decimal((-n) as nat));
            } else {
                law_decimal_is_numeral(n as nat);
            }
        },
        None => {},
    }
}

/// Whether a number is one of the given integer type, as it is without a sign if the type
/// has none.
pub open spec fn is_in_type(ty: Type, n: int) -> bool {
    match ty {
        Type::I8 => i8::MIN <= n <= i8::MAX,
        Type::I16 => i16::MIN <= n <= i16::MAX,
        Type::I32 => i32::MIN <= n <= i32::MAX,
        Type::I64 => i64::MIN <= n <= i64::MAX,
        Type::U8 => 0 <= n <= u8::MAX,
        Type::U16 => 0 <= n <= u16::MAX,
        Type::U32 => 0 <= n <= u32::MAX,
        Type::U64 => 0 <= n <= u64::MAX,
        _ => false,
    }
}

/// Whether the type is one of integers with a sign.
pub open spec fn is_signed_type(ty: Type) -> bool {
    ty is I8 || ty is I16 || ty is I32 || ty is I64
}

/// Whether the type is one of integers without a sign.
pub open spec fn is_unsigned_type(ty: Type) -> bool {
    ty is U8 || ty is U16 || ty is U32 || ty is U64
}

/// What is read from an attribute is of the type that was asked for. A numeral is read as
/// the number that it stands for, if and only if the type has that number. Text, truth
/// values, bytes and variants are read as they are.
pub proof fn law_attribute_is_read_as_it_is(ty: Type, attribute: AttributeView)
    ensures
        value_of(ty, attribute) matches Some(v) ==> has_type(ty, v),
        attribute matches AttributeView::N(s) ==> {
            &&& is_signed_type(ty) ==> match value_of(ty, attribute) {
                Some(v) => signed_value(s) is Some && number_of(v) == signed_value(s),
                None => signed_value(s) matches Some(n) ==> !is_in_type(ty, n),
            }
            &&& is_unsigned_type(ty) ==> match value_of(ty, attribute) {
                Some(v) => unsigned_value(s) matches Some(n) && number_of(v) == Some(n as int),
                None => unsigned_value(s) matches Some(n) ==> !is_in_type(ty, n as int),
            }
        },
        attribute matches AttributeView::S(s) ==> {
            &&& ty is String ==> value_of(ty, attribute) == Some(ValueView::String(s))
            &&& ty matches Type::Id(model) ==> value_of(ty, attribute) == Some(
                ValueView::Id(model, s),
            )
        },
        attribute matches AttributeView::Bool(b) ==> (ty is Bool ==> value_of(ty, attribute)
            == Some(ValueView::Bool(b))),
        attribute matches AttributeView::B(b) ==> (ty is Bytes ==> value_of(ty, attribute)
            == Some(ValueView::Bytes(b))),
        attribute matches AttributeView::Enum(variant, payload) ==> (ty is Enum ==> {
            let v = value_of(ty, attribute);
            &&& v is Some
            &&& v->0 is Enum
            &&& v->0->Enum_0 == variant
            &&& v->0->Enum_1.len() == (if payload is Null {
                0nat
            } else {
                1nat
            })
            &&& payload !is Null ==> v->0->Enum_1[0] == payload
        }),
{
}

/// Every value can be stored but null, records, and variants that carry several values or
/// one that is not plain.
pub proof fn law_plain_values_can_be_stored(v: ValueView)
    ensures
        number_of(v) is Some ==> is_storable(v),
        v is Bool || v is String || v is Bytes || v is Uuid || v is Id ==> is_storable(v),
        v matches ValueView::Enum(_, fields) ==> {
            &&& fields.len() == 0 ==> is_storable(v)
            &&& fields.len() == 1 && (number_of(fields[0]) is Some || fields[0] is Bool
                || fields[0] is String || fields[0] is Id) ==> is_storable(v)
        },
{
}

/// The text of a variant is its number, the delimiter, and what it carries, unchanged. Text
/// without a delimiter, or without a number before it, is that of no variant.
pub proof fn law_variant_is_framed(variant: usize, payload: Seq<char>, s: Seq<char>)
    ensures
        framed(variant, payload).len() == decimal(variant as nat).len() + 1 + payload.len(),
        is_numeral(framed(variant, payload).take(decimal(variant as nat).len() as int), variant as nat),
        framed(variant, payload)[decimal(variant as nat).len() as int] == '#',
        framed(variant, payload).skip(decimal(variant as nat).len() as int + 1) == payload,
        !s.contains('#') ==> unframed(s) is None,
        s.len() > 0 && s[0] == '#' ==> unframed(s) is None,
{
    law_decimal_is_numeral(variant as nat);
    let all = framed(variant, payload);
    let n = decimal(variant as nat).len() as int;
    assert(all.take(n) =~= decimal(variant as nat));
    assert(all.skip(n + 1) =~= payload);
    s.index_of_first_ensures('#');
    if s.len() > 0 && s[0] == '#' {
        assert(s.contains('#'));
        assert(s.index_of_first('#') == Some(0int));
        assert(s.take(0) =~= Seq::empty());
    }
}

/// Keys can be text, identifiers of models, variants, truth values and signed numbers. The
/// first three are text attributes and the others numbers.
pub proof fn law_key_types(ty: Type)
    ensures
        is_key_type(ty) <==> can_be_key(ty),
        is_key_type(ty) ==> is_type_of_key(key_attribute_type(ty), ty),
{
}

/// The endpoint of a URL is its host behind `http://`, and nothing without a host. A port is
/// put behind that with a colon between. A URL for something else is named whole in what is
/// said of it.
pub proof fn law_endpoint_is_host_and_port(url: UrlView)
    ensures
        url.host is Some <==> endpoint_at(url) is Some,
        url.host matches Some(host) ==> {
            let alone = endpoint_at(UrlView { port: None, ..url })->0;
            &&& alone.len() == 7 + host.len()
            &&& alone.take(7) == "http://"@
            &&& alone.skip(7) == host
            &&& url.port is None ==> endpoint_at(url) == Some(alone)
            &&& url.port matches Some(port) ==> {
                let all = endpoint_at(url)->0;
                &&& all.len() > alone.len()
                &&& all.take(alone.len() as int) == alone
                &&& all[alone.len() as int] == ':'
                &&& is_numeral(all.skip(alone.len() as int + 1), port as nat)
            }
        },
        ({
            let said = "connection URL does not have a `dynamodb` scheme; url="@;
            &&& wrong_scheme(url).len() == said.len() + url.text.len()
            &&& wrong_scheme(url).take(said.len() as int) == said
            &&& wrong_scheme(url).skip(said.len() as int) == url.text
        }),
{
    let said = "connection URL does not have a `dynamodb` scheme; url="@;
    assert(wrong_scheme(url).take(said.len() as int) =~= said);
    assert(wrong_scheme(url).skip(said.len() as int) =~= url.text);
    reveal_strlit("http://");
    reveal_strlit(":");
    match url.host {
        Some(host) => {
            let alone = endpoint_at(UrlView { port: None, ..url })->0;
            assert(alone.take(7) =~= "http://"@);
            assert(alone.skip(7) =~= host);
            match url.port {
                Some(port) => {
                    let all = endpoint_at(url)->0;
                    let n = alone.len() as int;
                    lemma_decimal_digits(port as nat);
                    law_decimal_is_numeral(port as nat);
                    assert(all.take(n) =~= alone);
                    assert(all.skip(n + 1) =~= decimal(port as nat));
                },
                None => {},
            }
        },
        None => {},
    }
}

} // verus!

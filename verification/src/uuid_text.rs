//! The text of universally unique identifiers.

use uuid::Uuid;
use vstd::arithmetic::power::pow;
use vstd::prelude::*;

verus! {

/// The lower-case hexadecimal digit that stands for `d`.
pub open spec fn hex_char(d: int) -> char {
    if d < 10 {
        (48 + d) as char
    } else {
        (87 + d) as char
    }
}

/// The hexadecimal digit of `x` at place `k`, from the left.
pub open spec fn hex_digit(x: u128, k: int) -> char {
    hex_char((x as int / pow(16, (31 - k) as nat)) % 16)
}

/// The identifier as 32 lower-case hexadecimal digits, with hyphens behind the
/// eighth, the twelfth, the sixteenth and the twentieth.
pub open spec fn uuid_text(x: u128) -> Seq<char> {
    Seq::new(
        36,
        |i: int|
            if i < 8 {
                hex_digit(x, i)
            } else if i == 8 || i == 13 || i == 18 || i == 23 {
                '-'
            } else if i < 13 {
                hex_digit(x, i - 1)
            } else if i < 18 {
                hex_digit(x, i - 2)
            } else if i < 23 {
                hex_digit(x, i - 3)
            } else {
                hex_digit(x, i - 4)
            },
    )
}

/// What `uuid::Uuid` reads from a text, if it reads anything.
pub uninterp spec fn uuid_of(text: Seq<char>) -> Option<u128>;

/// Calls `Uuid::from_u128` and writes the result with its `Display`, which gives
/// the hyphenated form in lower case.
#[verifier::external_body]
pub(crate) fn format_uuid(x: u128) -> (r: String)
    ensures
        r@ == uuid_text(x),
{
    Uuid::from_u128(x).to_string()
}

/// Calls `str::parse` for `uuid::Uuid`, which reads any of the forms in which a
/// `Uuid` can be written, among them the one that `Display` gives.
#[verifier::external_body]
pub(crate) fn parse_uuid(text: &str) -> (r: Option<u128>)
    ensures
        r == uuid_of(text@),
        forall|x: u128| text@ == #[trigger] uuid_text(x) ==> r == Some(x),
{
    match text.parse::<Uuid>() {
        Ok(uuid) => Some(uuid.as_u128()),
        Err(_) => None,
    }
}

} // verus!

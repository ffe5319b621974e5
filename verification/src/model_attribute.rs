//! The attribute by which a model asks to be stored in an item collection.

use syn::Type as SynType;
use vstd::prelude::*;

verus! {

/// The type `syn::Attribute`.
#[verifier::external_type_specification]
#[verifier::external_body]
pub struct ExAttribute(syn::Attribute);

/// The type `syn::Type`.
#[verifier::external_type_specification]
#[verifier::external_body]
pub struct ExType(SynType);

/// The type `syn::Error`.
#[verifier::external_type_specification]
#[verifier::external_body]
pub struct ExError(syn::Error);

/// The number of segments of the path that an attribute consists of, if it consists
/// of a path alone, without arguments or a value.
pub uninterp spec fn bare_path_len(attr: syn::Attribute) -> Option<usize>;

/// Calls `Punctuated::len` on the segments of the path, if the `meta` of the attribute
/// is a `Meta::Path`. A list and a name with a value have no bare path. The result
/// depends on the attribute alone.
#[verifier::external_body]
fn count_segments(attr: &syn::Attribute) -> (r: Option<usize>)
    ensures
        r == bare_path_len(*attr),
{
    match &attr.meta {
        syn::Meta::Path(path) => Some(path.segments.len()),
        syn::Meta::List(_) => None,
        syn::Meta::NameValue(_) => None,
    }
}

/// Whether the attribute consists of a path without any segments.
pub fn is_empty_path(attr: &syn::Attribute) -> (r: bool)
    ensures
        r == (bare_path_len(*attr) == Some(0usize)),
{
    match count_segments(attr) {
        Some(len) => len == 0,
        None => false,
    }
}

/// The type that the arguments of an attribute are, if they are one.
pub uninterp spec fn argument_type(attr: syn::Attribute) -> Option<SynType>;

/// Calls `Attribute::parse_args` for `syn::Type`, which parses what stands between
/// the parentheses of the attribute, and fails if that is not a type and nothing
/// else. An attribute that is a bare path is refused with an error that points at the
/// first and the last segment of the path, so there has to be one. Which error comes
/// back is not said: a `syn::Error` remembers the thread that it was made on, so the
/// attribute alone does not decide it.
#[verifier::external_body]
fn parse_type(attr: &syn::Attribute) -> (r: Result<SynType, syn::Error>)
    requires
        bare_path_len(*attr) != Some(0usize),
    ensures
        match r {
            Ok(ty) => argument_type(*attr) == Some(ty),
            Err(_) => argument_type(*attr) is None,
        },
{
    attr.parse_args()
}

/// The attribute by which a model asks to be stored in an item collection.
#[derive(Debug)]
pub struct ItemCollection {
    /// The parent model
    pub ty: SynType,
}

impl ItemCollection {
    /// Reads the attribute, which is not an empty path.
    pub fn from_ast(attr: &syn::Attribute) -> (r: Result<ItemCollection, syn::Error>)
        requires
            bare_path_len(*attr) != Some(0usize),
        ensures
            match r {
                Ok(collection) => argument_type(*attr) == Some(collection.ty),
                Err(_) => argument_type(*attr) is None,
            },
    {
        match parse_type(attr) {
            Ok(ty) => Ok(ItemCollection { ty }),
            Err(error) => Err(error),
        }
    }

    /// Reads the attribute, unless it is an empty path.
    pub fn try_from_ast(attr: &syn::Attribute) -> (r: Option<Result<ItemCollection, syn::Error>>)
        ensures
            r is None <==> bare_path_len(*attr) == Some(0usize),
            match r {
                Some(Ok(collection)) => argument_type(*attr) == Some(collection.ty),
                Some(Err(_)) => argument_type(*attr) is None,
                None => true,
            },
    {
        if is_empty_path(attr) {
            None
        } else {
            Some(ItemCollection::from_ast(attr))
        }
    }
}

} // verus!

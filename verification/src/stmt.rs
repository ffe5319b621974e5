//! Statement types, values and expressions.

use crate::app::{FieldId, ModelId};
use vstd::prelude::*;

verus! {

/// The type of a value.
#[derive(Clone, Copy, PartialEq, Eq, Structural, Debug)]
pub enum Type {
    Null,
    Bool,
    String,
    I8,
    I16,
    I32,
    I64,
    U8,
    U16,
    U32,
    U64,
    Bytes,
    Uuid,
    /// The identifier of a model
    Id(ModelId),
    /// An enumeration, by the number under which the schema knows it
    Enum(usize),
}

/// The identifier of one record of a model, as text.
#[derive(Debug, PartialEq, Eq)]
pub struct Id {
    pub model: ModelId,
    pub text: String,
}

/// A value of an enumeration: the variant and the fields it carries.
#[derive(Debug, PartialEq, Eq)]
pub struct ValueEnum {
    pub variant: usize,
    pub fields: Vec<Value>,
}

/// A value.
#[derive(Debug, PartialEq, Eq)]
pub enum Value {
    Null,
    Bool(bool),
    String(String),
    I8(i8),
    I16(i16),
    I32(i32),
    I64(i64),
    U8(u8),
    U16(u16),
    U32(u32),
    U64(u64),
    Bytes(Vec<u8>),
    Uuid(u128),
    Id(Id),
    Enum(ValueEnum),
    Record(Vec<Value>),
}

/// What a value says, with text and lists as sequences.
pub enum ValueView {
    Null,
    Bool(bool),
    String(Seq<char>),
    I8(i8),
    I16(i16),
    I32(i32),
    I64(i64),
    U8(u8),
    U16(u16),
    U32(u32),
    U64(u64),
    Bytes(Seq<u8>),
    Uuid(u128),
    Id(ModelId, Seq<char>),
    Enum(usize, Seq<ValueView>),
    Record(Seq<ValueView>),
}

/// What a value says.
pub open spec fn value_view(v: Value) -> ValueView
    decreases v,
{
    match v {
        Value::Null => ValueView::Null,
        Value::Bool(b) => ValueView::Bool(b),
        Value::String(s) => ValueView::String(s@),
        Value::I8(n) => ValueView::I8(n),
        Value::I16(n) => ValueView::I16(n),
        Value::I32(n) => ValueView::I32(n),
        Value::I64(n) => ValueView::I64(n),
        Value::U8(n) => ValueView::U8(n),
        Value::U16(n) => ValueView::U16(n),
        Value::U32(n) => ValueView::U32(n),
        Value::U64(n) => ValueView::U64(n),
        Value::Bytes(b) => ValueView::Bytes(b@),
        Value::Uuid(u) => ValueView::Uuid(u),
        Value::Id(id) => ValueView::Id(id.model, id.text@),
        Value::Enum(e) => ValueView::Enum(
            e.variant,
            Seq::new(
                e.fields@.len(),
                |i: int|
                    if 0 <= i < e.fields@.len() {
                        value_view(e.fields@[i])
                    } else {
                        ValueView::Null
                    },
            ),
        ),
        Value::Record(r) => ValueView::Record(
            Seq::new(
                r@.len(),
                |i: int|
                    if 0 <= i < r@.len() {
                        value_view(r@[i])
                    } else {
                        ValueView::Null
                    },
            ),
        ),
    }
}

impl View for Value {
    type V = ValueView;

    open spec fn view(&self) -> ValueView {
        value_view(*self)
    }
}

/// What each value of a list says.
pub open spec fn value_views(values: Seq<Value>) -> Seq<ValueView> {
    values.map_values(|v: Value| v@)
}

impl ValueView {
    /// The text of a string value; no other value has one.
    pub open spec fn as_str(self) -> Option<Seq<char>> {
        match self {
            ValueView::String(s) => Some(s),
            _ => None,
        }
    }
}

impl Value {
    /// Whether this is the null value.
    pub fn is_null(&self) -> (r: bool)
        ensures
            r == (self@ == ValueView::Null),
    {
        match self {
            Value::Null => true,
            _ => false,
        }
    }

    /// The text of a string value; no other value has one.
    pub fn as_str(&self) -> (r: Option<&str>)
        ensures
            match r {
                Some(s) => self@.as_str() == Some(s@),
                None => self@.as_str() is None,
            },
    {
        match self {
            Value::String(s) => Some(s.as_str()),
            _ => None,
        }
    }
}

/// A binary operator.
#[derive(Clone, Copy, PartialEq, Eq, Structural, Debug)]
pub enum BinaryOp {
    Eq,
    Ne,
    Gt,
    Ge,
    Lt,
    Le,
}

/// A column of the table that an expression is about.
#[derive(Clone, Copy, PartialEq, Eq, Structural, Debug)]
pub struct ExprColumn {
    /// Query scope nesting
    pub nesting: usize,
    /// Position of the table in the query's source
    pub table: usize,
    /// Position of the column in the table
    pub column: usize,
}

/// What an expression refers to.
#[derive(Clone, Copy, PartialEq, Eq, Structural, Debug)]
pub enum ExprReference {
    /// A field of the model that the expression is about
    Field(FieldId),
    Column(ExprColumn),
}

/// A comparison.
#[derive(Debug, PartialEq, Eq)]
pub struct ExprBinaryOp {
    pub lhs: Box<Expr>,
    pub op: BinaryOp,
    pub rhs: Box<Expr>,
}

/// A test for a prefix.
#[derive(Debug, PartialEq, Eq)]
pub struct ExprBeginsWith {
    pub expr: Box<Expr>,
    pub pattern: Box<Expr>,
}

/// An expression.
#[derive(Debug, PartialEq, Eq)]
pub enum Expr {
    And(Vec<Expr>),
    BinaryOp(ExprBinaryOp),
    BeginsWith(ExprBeginsWith),
    Cast(Box<Expr>, Type),
    IsNull(Box<Expr>),
    Record(Vec<Expr>),
    Reference(ExprReference),
    Value(Value),
}

impl Expr {
    /// The null value.
    pub fn null() -> (r: Expr)
        ensures
            r == Expr::Value(Value::Null),
    {
        Expr::Value(Value::Null)
    }

    /// A field of the model that the expression is about.
    pub fn ref_self_field(field: FieldId) -> (r: Expr)
        ensures
            r == Expr::Reference(ExprReference::Field(field)),
    {
        Expr::Reference(ExprReference::Field(field))
    }

    /// A column of a table.
    pub fn column(column: ExprColumn) -> (r: Expr)
        ensures
            r == Expr::Reference(ExprReference::Column(column)),
    {
        Expr::Reference(ExprReference::Column(column))
    }

    /// The expression, converted to another type.
    pub fn cast(expr: Expr, ty: Type) -> (r: Expr)
        ensures
            r == Expr::Cast(Box::new(expr), ty),
    {
        Expr::Cast(Box::new(expr), ty)
    }
}

} // verus!

//! Conditions on stored items, as text with placeholders.

use crate::attribute::{
    AttributeValue, AttributeView, attribute_of, ddb_val, is_storable,
};
use crate::db::{Column, ColumnId, ColumnView, Table, TableView};
use crate::delimited;
use crate::keys::attribute_views;
use crate::stmt::{BinaryOp, Expr, ExprBinaryOp, ExprReference, Value};
use crate::string_map::StringMap;
use crate::text;
use vstd::prelude::*;

verus! {

/// The placeholders that stand for names and values in an expression.
#[derive(Debug)]
pub struct ExprAttrs {
    /// The placeholder of each column
    pub columns: Vec<(ColumnId, String)>,
    /// What each name placeholder stands for
    pub attr_names: StringMap<String>,
    /// What each value placeholder stands for
    pub attr_values: StringMap<AttributeValue>,
}

/// What placeholders stand for.
#[verifier::ext_equal]
pub struct AttrsView {
    pub columns: Seq<(ColumnId, Seq<char>)>,
    pub names: Map<Seq<char>, Seq<char>>,
    pub values: Map<Seq<char>, AttributeView>,
}

/// What each name says.
pub open spec fn name_views(names: Map<Seq<char>, String>) -> Map<Seq<char>, Seq<char>> {
    names.map_values(|n: String| n@)
}

/// What the placeholders of columns say.
pub open spec fn placeholder_views(columns: Seq<(ColumnId, String)>) -> Seq<(ColumnId, Seq<char>)> {
    columns.map_values(|c: (ColumnId, String)| (c.0, c.1@))
}

impl View for ExprAttrs {
    type V = AttrsView;

    open spec fn view(&self) -> AttrsView {
        AttrsView {
            columns: placeholder_views(self.columns@),
            names: name_views(self.attr_names@),
            values: attribute_views(self.attr_values@),
        }
    }
}

impl AttrsView {
    /// No placeholders.
    pub open spec fn empty() -> AttrsView {
        AttrsView { columns: Seq::empty(), names: Map::empty(), values: Map::empty() }
    }
}

/// The placeholder that a column already has.
pub open spec fn placeholder_of(columns: Seq<(ColumnId, Seq<char>)>, id: ColumnId) -> Option<
    Seq<char>,
>
    decreases columns.len(),
{
    if columns.len() == 0 {
        None
    } else {
        match placeholder_of(columns.drop_last(), id) {
            Some(name) => Some(name),
            None => if columns.last().0 == id {
                Some(columns.last().1)
            } else {
                None
            },
        }
    }
}

/// The placeholder for a new column.
pub open spec fn column_placeholder(id: ColumnId) -> Seq<char> {
    "#col_"@ + text::decimal(id.index as nat)
}

/// The placeholder for a new value, if there are `n` already.
pub open spec fn value_placeholder(n: nat) -> Seq<char> {
    ":v_"@ + text::decimal(n)
}

/// A column's placeholder, which is made if there is none yet.
pub open spec fn with_column(s: AttrsView, column: ColumnView) -> (AttrsView, Seq<char>) {
    match placeholder_of(s.columns, column.id) {
        Some(name) => (s, name),
        None => {
            let name = column_placeholder(column.id);
            (
                AttrsView {
                    columns: s.columns.push((column.id, name)),
                    names: s.names.insert(name, column.name),
                    ..s
                },
                name,
            )
        },
    }
}

/// A new placeholder for a value.
pub open spec fn with_value(s: AttrsView, value: AttributeView) -> (AttrsView, Seq<char>) {
    let name = value_placeholder(s.values.len());
    (AttrsView { values: s.values.insert(name, value), ..s }, name)
}

/// The column that a reference names in the table that the expression is about.
pub open spec fn referred(reference: ExprReference) -> Option<usize> {
    match reference {
        ExprReference::Column(column) => if column.nesting == 0 {
            Some(column.column)
        } else {
            None
        },
        ExprReference::Field(_) => None,
    }
}

/// The text of an operator.
pub open spec fn operator(op: BinaryOp) -> Seq<char> {
    match op {
        BinaryOp::Eq => " = "@,
        BinaryOp::Ne => " <> "@,
        BinaryOp::Gt => " > "@,
        BinaryOp::Ge => " >= "@,
        BinaryOp::Lt => " < "@,
        BinaryOp::Le => " <= "@,
    }
}

/// Whether an expression can be written as a condition.
///
/// A condition on the primary key cannot ask for inequality.
pub open spec fn is_supported(table: TableView, primary: bool, expr: Expr) -> bool
    decreases expr,
{
    match expr {
        Expr::BinaryOp(op) => {
            &&& is_supported(table, primary, *op.lhs)
            &&& is_supported(table, primary, *op.rhs)
            &&& primary ==> op.op != BinaryOp::Ne
        },
        Expr::Reference(reference) => referred(reference) matches Some(i) && i
            < table.columns.len(),
        Expr::Value(value) => is_storable(value@),
        Expr::And(operands) => forall|i: int|
            0 <= i < operands@.len() ==> is_supported(table, primary, #[trigger] operands@[i]),
        Expr::BeginsWith(begins_with) => {
            &&& is_supported(table, primary, *begins_with.expr)
            &&& is_supported(table, primary, *begins_with.pattern)
        },
        _ => false,
    }
}

/// The placeholders once an expression is written, and its text.
pub open spec fn written(table: TableView, s: AttrsView, expr: Expr) -> (AttrsView, Seq<char>)
    decreases expr, 0nat,
{
    match expr {
        Expr::BinaryOp(op) => written_op(table, s, op),
        Expr::Reference(reference) => with_column(
            s,
            table.columns[referred(reference)->0 as int],
        ),
        Expr::Value(value) => with_value(s, attribute_of(value@)),
        Expr::And(operands) => {
            let (t, parts) = written_operands(table, s, operands, operands@.len());
            (t, delimited::joined(parts, " AND "@))
        },
        Expr::BeginsWith(begins_with) => {
            let (t, expr) = written(table, s, *begins_with.expr);
            let (u, pattern) = written(table, t, *begins_with.pattern);
            (u, "begins_with("@ + expr + ", "@ + pattern + ")"@)
        },
        _ => arbitrary(),
    }
}

/// The placeholders once a comparison is written, and its text.
pub open spec fn written_op(table: TableView, s: AttrsView, op: ExprBinaryOp) -> (
    AttrsView,
    Seq<char>,
)
    decreases op, 1nat,
{
    let (t, lhs) = written(table, s, *op.lhs);
    let (u, rhs) = written(table, t, *op.rhs);
    (u, lhs + operator(op.op) + rhs)
}

/// The placeholders once the first `n` operands are written, and their texts.
pub open spec fn written_operands(
    table: TableView,
    s: AttrsView,
    operands: Vec<Expr>,
    n: nat,
) -> (AttrsView, Seq<Seq<char>>)
    decreases operands, n,
{
    if n == 0 || n > operands@.len() {
        (s, Seq::empty())
    } else {
        let (t, parts) = written_operands(table, s, operands, (n - 1) as nat);
        let (u, part) = written(table, t, operands@[n - 1]);
        (u, parts.push(part))
    }
}

proof fn lemma_placeholder_of(columns: Seq<(ColumnId, Seq<char>)>, id: ColumnId, i: int)
    requires
        0 <= i <= columns.len(),
        forall|j: int| 0 <= j < i ==> (#[trigger] columns[j]).0 != id,
        i < columns.len() ==> columns[i].0 == id,
    ensures
        placeholder_of(columns, id) == (if i < columns.len() {
            Some(columns[i].1)
        } else {
            None
        }),
    decreases columns.len(),
{
    if columns.len() > 0 {
        let rest = columns.drop_last();
        if i < columns.len() - 1 {
            assert forall|j: int| 0 <= j < i implies (#[trigger] rest[j]).0 != id by {
                assert(rest[j] == columns[j]);
            }
            lemma_placeholder_of(rest, id, i);
        } else {
            assert forall|j: int| 0 <= j < rest.len() implies (#[trigger] rest[j]).0 != id by {
                assert(rest[j] == columns[j]);
            }
            lemma_placeholder_of(rest, id, rest.len() as int);
            if i == columns.len() {
                assert(columns[columns.len() - 1].0 != id);
            }
        }
    }
}

impl ExprAttrs {
    /// No placeholders.
    pub fn new() -> (r: ExprAttrs)
        ensures
            r@ == AttrsView::empty(),
    {
        let r = ExprAttrs {
            columns: Vec::new(),
            attr_names: StringMap::new(),
            attr_values: StringMap::new(),
        };
        assert(r@ =~= AttrsView::empty());
        r
    }

    /// A column's placeholder, which is made if there is none yet.
    pub fn column(&mut self, column: &Column) -> (r: String)
        ensures
            (final(self)@, r@) == with_column(old(self)@, column@),
    {
        let ghost s = self@;
        let mut i: usize = 0;
        while i < self.columns.len()
            invariant
                i <= self.columns@.len(),
                *self == *old(self),
                s == self@,
                forall|j: int| 0 <= j < i ==> (#[trigger] s.columns[j]).0 != column.id,
            decreases self.columns@.len() - i,
        {
            if self.columns[i].0 == column.id {
                proof {
                    lemma_placeholder_of(s.columns, column.id, i as int);
                }
                return self.columns[i].1.clone();
            }
            i = i + 1;
        }
        proof {
            lemma_placeholder_of(s.columns, column.id, i as int);
        }
        let mut name = "#col_".to_string();
        text::append_decimal(&mut name, column.id.index as u64);
        let ghost names = self.attr_names@;
        self.attr_names.insert(name.clone(), column.name.clone());
        assert(name_views(self.attr_names@) =~= name_views(names).insert(name@, column.name@));
        let ghost columns = self.columns@;
        self.columns.push((column.id, name.clone()));
        assert(placeholder_views(self.columns@) =~= placeholder_views(columns).push(
            (column.id, name@),
        ));
        name
    }

    /// A new placeholder for a text.
    pub fn literal(&mut self, val: String) -> (r: String)
        ensures
            (final(self)@, r@) == with_value(old(self)@, AttributeView::S(val@)),
    {
        self.ddb_value(AttributeValue::S(val))
    }

    /// A new placeholder for a value.
    pub fn value(&mut self, val: &Value) -> (r: String)
        requires
            is_storable(val@),
        ensures
            (final(self)@, r@) == with_value(old(self)@, attribute_of(val@)),
    {
        self.ddb_value(ddb_val(val))
    }

    /// A new placeholder for an attribute.
    pub fn ddb_value(&mut self, val: AttributeValue) -> (r: String)
        ensures
            (final(self)@, r@) == with_value(old(self)@, val@),
    {
        let ghost values = self.attr_values@;
        let i: usize = self.attr_values.len();
        let mut name = ":v_".to_string();
        text::append_decimal(&mut name, i as u64);
        self.attr_values.insert(name.clone(), val);
        proof {
            assert(attribute_views(values).dom() =~= values.dom());
            assert(attribute_views(self.attr_values@) =~= attribute_views(values).insert(
                name@,
                val@,
            ));
        }
        name
    }
}

/// Writes an expression as a condition on items of the table.
pub fn ddb_expression(table: &Table, attrs: &mut ExprAttrs, primary: bool, expr: &Expr) -> (r:
    String)
    requires
        is_supported(table@, primary, *expr),
    ensures
        (final(attrs)@, r@) == written(table@, old(attrs)@, *expr),
    decreases expr, 0nat,
{
    match expr {
        Expr::BinaryOp(op) => ddb_binary_op(table, attrs, primary, op),
        Expr::Reference(reference) => {
            match reference {
                ExprReference::Column(column) => attrs.column(&table.columns[column.column]),
                ExprReference::Field(_) => vstd::pervasive::unreached(),
            }
        },
        Expr::Value(val) => attrs.value(val),
        Expr::And(operands) => {
            let parts = ddb_operands(table, attrs, primary, operands);
            delimited::join(&parts, " AND ")
        },
        Expr::BeginsWith(begins_with) => {
            let expr = ddb_expression(table, attrs, primary, &begins_with.expr);
            let substr = ddb_expression(table, attrs, primary, &begins_with.pattern);
            let mut r = "begins_with(".to_string();
            r.append(expr.as_str());
            r.append(", ");
            r.append(substr.as_str());
            r.append(")");
            r
        },
        _ => vstd::pervasive::unreached(),
    }
}

/// Writes a comparison.
pub fn ddb_binary_op(
    table: &Table,
    attrs: &mut ExprAttrs,
    primary: bool,
    op: &ExprBinaryOp,
) -> (r: String)
    requires
        is_supported(table@, primary, *op.lhs),
        is_supported(table@, primary, *op.rhs),
        primary ==> op.op != BinaryOp::Ne,
    ensures
        (final(attrs)@, r@) == written_op(table@, old(attrs)@, *op),
    decreases op, 1nat,
{
    let mut lhs = ddb_expression(table, attrs, primary, &op.lhs);
    let rhs = ddb_expression(table, attrs, primary, &op.rhs);
    match op.op {
        BinaryOp::Eq => lhs.append(" = "),
        BinaryOp::Ne => lhs.append(" <> "),
        BinaryOp::Gt => lhs.append(" > "),
        BinaryOp::Ge => lhs.append(" >= "),
        BinaryOp::Lt => lhs.append(" < "),
        BinaryOp::Le => lhs.append(" <= "),
    }
    lhs.append(rhs.as_str());
    lhs
}

/// Writes each of several expressions.
fn ddb_operands(table: &Table, attrs: &mut ExprAttrs, primary: bool, operands: &Vec<Expr>) -> (r:
    Vec<String>)
    requires
        forall|i: int|
            0 <= i < operands@.len() ==> is_supported(table@, primary, #[trigger] operands@[i]),
    ensures
        (final(attrs)@, delimited::texts(r@)) == written_operands(
            table@,
            old(attrs)@,
            *operands,
            operands@.len(),
        ),
    decreases operands, operands@.len(),
{
    let mut parts: Vec<String> = Vec::new();
    let mut i: usize = 0;
    assert(delimited::texts(parts@) =~= Seq::<Seq<char>>::empty());
    while i < operands.len()
        invariant
            i <= operands@.len(),
            forall|k: int|
                0 <= k < operands@.len() ==> is_supported(
                    table@,
                    primary,
                    #[trigger] operands@[k],
                ),
            (attrs@, delimited::texts(parts@)) == written_operands(
                table@,
                old(attrs)@,
                *operands,
                i as nat,
            ),
        decreases operands@.len() - i,
    {
        let ghost before = parts@;
        assert(is_supported(table@, primary, operands@[i as int]));
        let part = ddb_expression(table, attrs, primary, &operands[i]);
        let ghost added = part@;
        parts.push(part);
        assert(delimited::texts(parts@) =~= delimited::texts(before).push(added));
        i = i + 1;
    }
    parts
}

} // verus!

//! What holds of the placeholders of every expression.

use crate::attribute::{AttributeView, attribute_of};
use crate::db::{ColumnId, TableView};
use crate::expression::{
    AttrsView, column_placeholder, is_supported, placeholder_of, referred, value_placeholder,
    with_column, with_value, written, written_op, written_operands,
};
use crate::key_laws::columns_numbered;
use crate::stmt::{BinaryOp, Expr};
use crate::text;
use vstd::prelude::*;

verus! {

/// Whether no placeholder for a value is taken from the number of values on.
pub open spec fn values_fresh(s: AttrsView) -> bool {
    &&& s.values.dom().finite()
    &&& forall|n: nat|
        n >= s.values.len() ==> !s.values.contains_key(#[trigger] value_placeholder(n))
}

/// Whether the placeholder at place `i` stands for its column.
pub open spec fn stands_for_column(table: TableView, s: AttrsView, i: int) -> bool {
    let (id, name) = s.columns[i];
    &&& table.has_column(id)
    &&& table.column(id).id == id
    &&& name == column_placeholder(id)
    &&& s.names.contains_key(name)
    &&& s.names[name] == table.column(id).name
}

/// Whether a name placeholder is that of a column or of the joined local key.
pub open spec fn is_known_name(s: AttrsView, name: Seq<char>) -> bool {
    name == "#sk_col"@ || exists|i: int|
        0 <= i < s.columns.len() && (#[trigger] s.columns[i]).1 == name
}

/// Whether every placeholder stands for what it was made for, and new ones can be
/// made without taking one away.
pub open spec fn placeholders_good(table: TableView, s: AttrsView) -> bool {
    &&& values_fresh(s)
    &&& forall|i: int| 0 <= i < s.columns.len() ==> #[trigger] stands_for_column(table, s, i)
    &&& forall|name: Seq<char>| #[trigger] s.names.contains_key(name) ==> is_known_name(s, name)
}

/// Whether every placeholder of `s` stands for the same in `t`.
pub open spec fn keeps_meaning(s: AttrsView, t: AttrsView) -> bool {
    &&& forall|name: Seq<char>| #[trigger]
        s.names.contains_key(name) ==> t.names.contains_key(name) && t.names[name] == s.names[name]
    &&& forall|name: Seq<char>| #[trigger]
        s.values.contains_key(name) ==> t.values.contains_key(name) && t.values[name]
            == s.values[name]
}

proof fn lemma_value_placeholder(a: nat, b: nat)
    requires
        value_placeholder(a) == value_placeholder(b),
    ensures
        a == b,
{
    let n = ":v_"@.len() as int;
    assert(value_placeholder(a).skip(n) =~= text::decimal(a));
    assert(value_placeholder(b).skip(n) =~= text::decimal(b));
    text::law_unsigned_round_trip(a);
    text::law_unsigned_round_trip(b);
}

pub proof fn lemma_column_placeholder(a: ColumnId, b: ColumnId)
    ensures
        column_placeholder(a) == column_placeholder(b) ==> a.index == b.index,
        column_placeholder(a) != "#sk_col"@,
{
    let n = "#col_"@.len() as int;
    if column_placeholder(a) == column_placeholder(b) {
        assert(column_placeholder(a).skip(n) =~= text::decimal(a.index as nat));
        assert(column_placeholder(b).skip(n) =~= text::decimal(b.index as nat));
        text::law_unsigned_round_trip(a.index as nat);
        text::law_unsigned_round_trip(b.index as nat);
    }
    reveal_strlit("#col_");
    reveal_strlit("#sk_col");
    assert(column_placeholder(a)[1] == 'c');
    assert("#sk_col"@[1] == 's');
}

/// A new placeholder for a value is one that stood for nothing before, and
/// takes no other away.
pub proof fn law_value_placeholder_is_fresh(table: TableView, s: AttrsView, value: AttributeView)
    requires
        placeholders_good(table, s),
    ensures
        ({
            let (t, name) = with_value(s, value);
            &&& !s.values.contains_key(name)
            &&& t.values[name] == value
            &&& placeholders_good(table, t)
            &&& keeps_meaning(s, t)
        }),
{
    let (t, name) = with_value(s, value);
    assert(!s.values.contains_key(value_placeholder(s.values.len())));
    assert(t.values.dom() =~= s.values.dom().insert(name));
    assert forall|n: nat| n >= t.values.len() implies !t.values.contains_key(
        #[trigger] value_placeholder(n),
    ) by {
        if value_placeholder(n) == name {
            lemma_value_placeholder(n, s.values.len());
        }
    }
    assert forall|i: int| 0 <= i < t.columns.len() implies #[trigger] stands_for_column(table, t, i) by {
        assert(stands_for_column(table, s, i));
    }
    assert forall|n: Seq<char>| #[trigger] t.names.contains_key(n) implies is_known_name(t, n) by {
        assert(is_known_name(s, n));
    }
}

proof fn lemma_placeholder_found(columns: Seq<(ColumnId, Seq<char>)>, id: ColumnId)
    ensures
        match placeholder_of(columns, id) {
            Some(name) => exists|i: int|
                0 <= i < columns.len() && (#[trigger] columns[i]) == (id, name),
            None => forall|i: int| 0 <= i < columns.len() ==> (#[trigger] columns[i]).0 != id,
        },
    decreases columns.len(),
{
    if columns.len() > 0 {
        let rest = columns.drop_last();
        lemma_placeholder_found(rest, id);
        match placeholder_of(rest, id) {
            Some(name) => {
                let i = choose|i: int| 0 <= i < rest.len() && (#[trigger] rest[i]) == (id, name);
                assert(columns[i] == (id, name));
            },
            None => {
                if columns.last().0 == id {
                    assert(columns[columns.len() - 1] == (id, columns.last().1));
                } else {
                    assert forall|i: int| 0 <= i < columns.len() implies (#[trigger] columns[i]).0
                        != id by {
                        if i < rest.len() {
                            assert(rest[i] == columns[i]);
                        }
                    }
                }
            },
        }
    }
}

/// The placeholder of a column stands for the column's name, and takes no
/// other away.
pub proof fn law_column_placeholder_stands_for_name(table: TableView, s: AttrsView, at: int)
    requires
        placeholders_good(table, s),
        columns_numbered(table),
        0 <= at < table.columns.len() <= usize::MAX,
    ensures
        ({
            let column = table.columns[at];
            let (t, name) = with_column(s, column);
            &&& t.names.contains_key(name)
            &&& t.names[name] == column.name
            &&& placeholders_good(table, t)
            &&& keeps_meaning(s, t)
        }),
{
    let column = table.columns[at];
    let (t, name) = with_column(s, column);
    lemma_placeholder_found(s.columns, column.id);
    match placeholder_of(s.columns, column.id) {
        Some(found) => {
            let i = choose|i: int|
                0 <= i < s.columns.len() && (#[trigger] s.columns[i]) == (column.id, found);
            assert(stands_for_column(table, s, i));
        },
        None => {
            assert(!s.names.contains_key(name)) by {
                if s.names.contains_key(name) {
                    assert(is_known_name(s, name));
                    lemma_column_placeholder(column.id, column.id);
                    let i = choose|i: int|
                        0 <= i < s.columns.len() && (#[trigger] s.columns[i]).1 == name;
                    assert(stands_for_column(table, s, i));
                    lemma_column_placeholder(s.columns[i].0, column.id);
                    assert(s.columns[i].0 == column.id);
                }
            }
            assert forall|i: int| 0 <= i < t.columns.len() implies #[trigger] stands_for_column(
                table,
                t,
                i,
            ) by {
                if i < s.columns.len() {
                    assert(stands_for_column(table, s, i));
                    assert(t.columns[i] == s.columns[i]);
                }
            }
            assert forall|n: Seq<char>| #[trigger] t.names.contains_key(n) implies is_known_name(
                t,
                n,
            ) by {
                if n == name {
                    assert(t.columns[s.columns.len() as int].1 == n);
                } else {
                    assert(s.names.contains_key(n));
                    if n != "#sk_col"@ {
                        let i = choose|i: int|
                            0 <= i < s.columns.len() && (#[trigger] s.columns[i]).1 == n;
                        assert(t.columns[i].1 == n);
                    }
                }
            }
        },
    }
}

pub proof fn lemma_keeps_trans(s: AttrsView, t: AttrsView, u: AttrsView)
    requires
        keeps_meaning(s, t),
        keeps_meaning(t, u),
    ensures
        keeps_meaning(s, u),
{
    assert forall|name: Seq<char>| #[trigger] s.names.contains_key(name) implies u.names.contains_key(
        name,
    ) && u.names[name] == s.names[name] by {
        assert(t.names.contains_key(name));
    }
    assert forall|name: Seq<char>| #[trigger] s.values.contains_key(name) implies u.values.contains_key(
        name,
    ) && u.values[name] == s.values[name] by {
        assert(t.values.contains_key(name));
    }
}

/// Writing an expression makes the placeholders that it needs and changes
/// the meaning of none that was there before.
pub proof fn law_expression_keeps_placeholders(
    table: TableView,
    s: AttrsView,
    primary: bool,
    expr: Expr,
)
    requires
        placeholders_good(table, s),
        columns_numbered(table),
        table.columns.len() <= usize::MAX,
        is_supported(table, primary, expr),
    ensures
        placeholders_good(table, written(table, s, expr).0),
        keeps_meaning(s, written(table, s, expr).0),
    decreases expr, 0nat,
{
    match expr {
        Expr::BinaryOp(op) => {
            let (t, lhs) = written(table, s, *op.lhs);
            law_expression_keeps_placeholders(table, s, primary, *op.lhs);
            law_expression_keeps_placeholders(table, t, primary, *op.rhs);
            lemma_keeps_trans(s, t, written(table, t, *op.rhs).0);
            assert(written(table, s, expr) == written_op(table, s, op));
            assert(written_op(table, s, op).0 == written(table, t, *op.rhs).0);
        },
        Expr::Reference(reference) => {
            law_column_placeholder_stands_for_name(table, s, referred(reference)->0 as int);
        },
        Expr::Value(value) => {
            law_value_placeholder_is_fresh(table, s, attribute_of(value@));
        },
        Expr::And(operands) => {
            lemma_operands_keep(table, s, primary, operands, operands@.len());
        },
        Expr::BeginsWith(begins_with) => {
            let (t, lhs) = written(table, s, *begins_with.expr);
            law_expression_keeps_placeholders(table, s, primary, *begins_with.expr);
            law_expression_keeps_placeholders(table, t, primary, *begins_with.pattern);
            lemma_keeps_trans(s, t, written(table, t, *begins_with.pattern).0);
        },
        _ => {},
    }
}

pub proof fn lemma_operands_keep(
    table: TableView,
    s: AttrsView,
    primary: bool,
    operands: Vec<Expr>,
    n: nat,
)
    requires
        placeholders_good(table, s),
        columns_numbered(table),
        table.columns.len() <= usize::MAX,
        n <= operands@.len(),
        forall|i: int|
            0 <= i < operands@.len() ==> is_supported(table, primary, #[trigger] operands@[i]),
    ensures
        placeholders_good(table, written_operands(table, s, operands, n).0),
        keeps_meaning(s, written_operands(table, s, operands, n).0),
    decreases operands, n,
{
    if n > 0 {
        let (t, parts) = written_operands(table, s, operands, (n - 1) as nat);
        lemma_operands_keep(table, s, primary, operands, (n - 1) as nat);
        assert(is_supported(table, primary, operands@[n - 1]));
        law_expression_keeps_placeholders(table, t, primary, operands@[n - 1]);
        lemma_keeps_trans(s, t, written(table, t, operands@[n - 1]).0);
    }
}

} // verus!

//! Which look-ups and inserts can be turned into requests.

use crate::attribute::is_storable;
use crate::attribute_laws::number_of;
use crate::create_laws::{key_parts, lemma_scoped_parts};
use crate::db::{ColumnId, IndexScope, IndexView, Schema, TableView};
use crate::expression::is_supported;
use crate::form_laws::law_sort_columns_follow_index;
use crate::insert_laws::{is_from_place, law_item_has_exactly_the_values, lemma_updated, updated_by};
use crate::insert_plan::{can_insert, coverage_known, is_joined, item_of, key_present, row_fits};
use crate::key_expression::{KeyConditions, gathered, is_equation, is_key_condition, is_prefix_condition};
use crate::key_laws::columns_numbered;
use crate::keys::sort_columns;
use crate::lookup_laws::{
    asked, asks_for, asks_for_first, comparisons, comparisons_of, lemma_gathered, on_column,
};
use crate::query_plan::can_query;
use crate::stmt::{BinaryOp, Expr, ExprBinaryOp, ExprReference, ValueView};
use crate::table_plan::{lemma_scoped, partition_column};
use vstd::prelude::*;

verus! {

/// Whether a value is a plain one: text, a number, a truth value, bytes or an identifier.
pub open spec fn is_plain_value(v: ValueView) -> bool {
    v is String || number_of(v) is Some || v is Bool || v is Bytes || v is Uuid || v is Id
}

/// Whether an expression is made of comparisons, prefix tests and conjunctions of them,
/// down to columns of the table and plain values. In a condition on the primary key, no
/// comparison asks for inequality.
pub open spec fn is_condition(table: TableView, primary: bool, expr: Expr) -> bool
    decreases expr,
{
    match expr {
        Expr::Value(value) => is_plain_value(value@),
        Expr::Reference(ExprReference::Column(column)) => column.nesting == 0 && column.column
            < table.columns.len(),
        Expr::BinaryOp(op) => {
            &&& !(primary && op.op == BinaryOp::Ne)
            &&& is_condition(table, primary, *op.lhs)
            &&& is_condition(table, primary, *op.rhs)
        },
        Expr::BeginsWith(begins_with) => {
            &&& is_condition(table, primary, *begins_with.expr)
            &&& is_condition(table, primary, *begins_with.pattern)
        },
        Expr::And(operands) => forall|i: int|
            0 <= i < operands@.len() ==> is_condition(table, primary, #[trigger] operands@[i]),
        _ => false,
    }
}

/// Every such condition can be written.
pub proof fn law_conditions_can_be_written(table: TableView, primary: bool, expr: Expr)
    requires
        is_condition(table, primary, expr),
    ensures
        is_supported(table, primary, expr),
    decreases expr,
{
    match expr {
        Expr::BinaryOp(op) => {
            law_conditions_can_be_written(table, primary, *op.lhs);
            law_conditions_can_be_written(table, primary, *op.rhs);
        },
        Expr::BeginsWith(begins_with) => {
            law_conditions_can_be_written(table, primary, *begins_with.expr);
            law_conditions_can_be_written(table, primary, *begins_with.pattern);
        },
        Expr::And(operands) => {
            assert forall|i: int| 0 <= i < operands@.len() implies is_supported(
                table,
                primary,
                #[trigger] operands@[i],
            ) by {
                law_conditions_can_be_written(table, primary, operands@[i]);
            }
        },
        _ => {},
    }
}

/// Whether all columns of the index over the primary key are the table's, and exactly one
/// of them picks the partition.
pub open spec fn has_one_partition_column(table: TableView) -> bool {
    &&& table.key_index.index < table.indices.len()
    &&& key_parts(table, IndexScope::Partition).len() == 1
    &&& forall|i: int|
        0 <= i < table.indices[table.key_index.index as int].columns.len() ==> (
        #[trigger] table.indices[table.key_index.index as int].columns[i]).column.index
            < table.columns.len()
}

/// Rows can be looked up by any condition on the primary key, and any further condition,
/// where the local key is at most one column.
pub proof fn law_plain_keys_can_be_looked_up(
    table: TableView,
    pk_filter: Expr,
    filter: Option<Expr>,
)
    requires
        has_one_partition_column(table),
        key_parts(table, IndexScope::Local).len() <= 1,
        is_condition(table, true, pk_filter),
        filter matches Some(expr) ==> is_condition(table, false, expr),
    ensures
        can_query(table, pk_filter, filter),
{
    law_sort_columns_follow_index(table);
    lemma_scoped_parts(
        table.indices[table.key_index.index as int].columns,
        IndexScope::Partition,
    );
    law_conditions_can_be_written(table, true, pk_filter);
    match filter {
        Some(expr) => {
            law_conditions_can_be_written(table, false, expr);
        },
        None => {},
    }
}

/// Whether a comparison asks whether a column of the table equals a plain value.
pub open spec fn is_plain_equation(table: TableView, op: ExprBinaryOp) -> bool {
    &&& op.op == BinaryOp::Eq
    &&& match *op.lhs {
        Expr::Reference(ExprReference::Column(column)) => column.nesting == 0 && column.column
            < table.columns.len(),
        _ => false,
    }
    &&& match *op.rhs {
        Expr::Value(value) => is_plain_value(value@),
        _ => false,
    }
}

/// Whether an expression is a conjunction of such equations.
pub open spec fn is_conjunction(table: TableView, expr: Expr) -> bool
    decreases expr,
{
    match expr {
        Expr::BinaryOp(op) => is_plain_equation(table, op),
        Expr::And(operands) => forall|i: int|
            0 <= i < operands@.len() ==> is_conjunction(table, #[trigger] operands@[i]),
        _ => false,
    }
}

proof fn lemma_conjunction(table: TableView, expr: Expr)
    requires
        is_conjunction(table, expr),
    ensures
        is_key_condition(table, expr),
        forall|k: int|
            0 <= k < comparisons(expr).len() ==> is_plain_equation(
                table,
                #[trigger] comparisons(expr)[k],
            ),
    decreases expr, 0nat,
{
    match expr {
        Expr::BinaryOp(op) => {
            assert(is_equation(table, op));
        },
        Expr::And(operands) => {
            assert forall|i: int| 0 <= i < operands@.len() implies is_key_condition(
                table,
                #[trigger] operands@[i],
            ) by {
                lemma_conjunction(table, operands@[i]);
            }
            lemma_conjunctions(table, operands, operands@.len());
            assert(comparisons(expr) == comparisons_of(operands, operands@.len()));
        },
        _ => {},
    }
}

proof fn lemma_conjunctions(table: TableView, operands: Vec<Expr>, n: nat)
    requires
        n <= operands@.len(),
        forall|i: int| 0 <= i < operands@.len() ==> is_conjunction(table, #[trigger] operands@[i]),
    ensures
        forall|k: int|
            0 <= k < comparisons_of(operands, n).len() ==> is_plain_equation(
                table,
                #[trigger] comparisons_of(operands, n)[k],
            ),
    decreases operands, n,
{
    if n > 0 {
        let m = (n - 1) as nat;
        lemma_conjunctions(table, operands, m);
        assert(is_conjunction(table, operands@[n - 1]));
        lemma_conjunction(table, operands@[n - 1]);
        let before = comparisons_of(operands, m);
        let added = comparisons(operands@[n - 1]);
        let all = comparisons_of(operands, n);
        assert forall|k: int| 0 <= k < all.len() implies is_plain_equation(
            table,
            #[trigger] all[k],
        ) by {
            if k < before.len() {
                assert(all[k] == before[k]);
            } else {
                assert(all[k] == added[k - before.len()]);
            }
        }
    }
}

proof fn lemma_kept_are_equations(table: TableView, all: Seq<ExprBinaryOp>, id: ColumnId)
    requires
        forall|k: int| 0 <= k < all.len() ==> is_plain_equation(table, #[trigger] all[k]),
    ensures
        forall|k: int|
            0 <= k < all.filter_map(on_column(table, id)).len() ==> is_plain_equation(
                table,
                #[trigger] all.filter_map(on_column(table, id))[k],
            ),
    decreases all.len(),
{
    if all.len() > 0 {
        let rest = all.drop_last();
        assert forall|k: int| 0 <= k < rest.len() implies is_plain_equation(
            table,
            #[trigger] rest[k],
        ) by {
            assert(rest[k] == all[k]);
        }
        lemma_kept_are_equations(table, rest, id);
        let before = rest.filter_map(on_column(table, id));
        let kept = all.filter_map(on_column(table, id));
        assert forall|k: int| 0 <= k < kept.len() implies is_plain_equation(
            table,
            #[trigger] kept[k],
        ) by {
            if k < before.len() {
                assert(kept[k] == before[k]);
            } else {
                assert(is_plain_equation(table, all[all.len() - 1]));
            }
        }
    }
}

/// Where the local key is made of several columns, rows can be looked up by any conjunction
/// of equations that gives the partition's column a value and the first columns of the local
/// key, however many, texts.
pub proof fn law_joined_keys_can_be_looked_up(
    table: TableView,
    pk_filter: Expr,
    filter: Option<Expr>,
    texts: Seq<Seq<char>>,
)
    requires
        columns_numbered(table),
        table.columns.len() <= usize::MAX,
        has_one_partition_column(table),
        key_parts(table, IndexScope::Local).len() > 1,
        !key_parts(table, IndexScope::Local).contains(
            key_parts(table, IndexScope::Partition)[0],
        ),
        forall|j: int|
            0 <= j < key_parts(table, IndexScope::Local).len() ==> (#[trigger] key_parts(
                table,
                IndexScope::Local,
            )[j]).table == table.id,
        key_parts(table, IndexScope::Partition)[0].table == table.id,
        is_conjunction(table, pk_filter),
        asked(table, pk_filter, key_parts(table, IndexScope::Partition)[0]).len() > 0,
        asks_for_first(table, pk_filter, key_parts(table, IndexScope::Local), texts),
        filter matches Some(expr) ==> is_condition(table, false, expr),
    ensures
        can_query(table, pk_filter, filter),
{
    let columns = table.indices[table.key_index.index as int].columns;
    let local = key_parts(table, IndexScope::Local);
    let at = key_parts(table, IndexScope::Partition)[0];
    let pk = partition_column(table).id;
    let sk_cols = sort_columns(table);
    law_sort_columns_follow_index(table);
    lemma_scoped_parts(columns, IndexScope::Partition);
    lemma_scoped_parts(columns, IndexScope::Local);
    lemma_scoped(table, columns, IndexScope::Partition);
    lemma_scoped(table, columns, IndexScope::Local);
    assert(table.has_column(at));
    assert(table.columns[at.index as int].id == at);
    assert(pk == at);
    assert forall|j: int| 0 <= j < sk_cols.len() implies #[trigger] sk_cols[j] == local[j] by {
        assert(local[j].table == table.id);
        assert(table.has_column(local[j]));
        assert(table.columns[local[j].index as int].id == local[j]);
    }
    assert(sk_cols =~= local);
    lemma_conjunction(table, pk_filter);
    lemma_gathered(table, pk, KeyConditions::empty(), pk_filter);
    lemma_kept_are_equations(table, comparisons(pk_filter), pk);
    let all = gathered(table, pk, KeyConditions::empty(), pk_filter);
    let on_pk = asked(table, pk_filter, pk);
    assert(is_plain_equation(table, on_pk[on_pk.len() - 1]));
    assert(all.pk == Some(on_pk.last()));
    assert forall|k: int| 0 <= k < sk_cols.len() implies #[trigger] all.sk.contains_key(
        sk_cols[k],
    ) == (k < texts.len()) by {
        assert(sk_cols[k] != pk) by {
            if sk_cols[k] == pk {
                assert(local.contains(local[k]));
            }
        }
        if k < texts.len() {
            assert(asks_for(table, pk_filter, local[k], texts[k]));
        } else {
            assert(asked(table, pk_filter, local[k]).len() == 0);
        }
    }
    assert forall|k: int|
        0 <= k < sk_cols.len() && all.sk.contains_key(#[trigger] sk_cols[k]) implies {
        &&& crate::key_expression::wanted_text(all.sk[sk_cols[k]]) is Some
        &&& forall|j: int| 0 <= j < k ==> all.sk.contains_key(#[trigger] sk_cols[j])
    } by {
        assert(asks_for(table, pk_filter, local[k], texts[k]));
        assert(local.contains(local[k]));
        assert(sk_cols[k] != pk);
        assert(all.sk[sk_cols[k]] == asked(table, pk_filter, local[k]).last());
    }
    assert(is_prefix_condition(all.sk, sk_cols));
    match filter {
        Some(expr) => {
            law_conditions_can_be_written(table, false, expr);
        },
        None => {},
    }
}

/// Whether the columns of an index are columns of the schema.
pub open spec fn is_over_schema(schema: Schema, index: IndexView) -> bool {
    forall|j: int|
        0 <= j < index.columns.len() ==> is_in_schema(schema, (#[trigger] index.columns[j]).column)
}

/// Whether the identifier names a column of the schema.
pub open spec fn is_in_schema(schema: Schema, id: ColumnId) -> bool {
    id.table.0 < schema.tables@.len() && id.index < schema.tables@[id.table.0 as int]@.columns.len()
}

/// Whether a row has a plain value or null for each column.
pub open spec fn is_plain_row(columns: Seq<ColumnId>, row: Seq<ValueView>) -> bool {
    &&& columns.len() <= row.len()
    &&& forall|i: int|
        0 <= i < columns.len() ==> (#[trigger] row[i]) is Null || is_plain_value(row[i])
}

/// Whether a row has a value that is stored alone for each column of the primary key.
pub open spec fn has_key_values(
    schema: Schema,
    table: TableView,
    columns: Seq<ColumnId>,
    row: Seq<ValueView>,
) -> bool {
    forall|k: int|
        0 <= k < table.key_columns.len() ==> {
            let id = #[trigger] table.key_columns[k];
            &&& id.index < table.columns.len()
            &&& exists|i: int| #[trigger]
                is_from_place(
                    schema,
                    columns,
                    sort_columns(table),
                    row,
                    table.columns[id.index as int].name,
                    i,
                )
        }
}

/// Rows of plain values and nulls can be inserted, any number of them, if the columns are
/// columns of the schema, the columns of the local key are among them where it is joined,
/// and at most one unique index is updated. If one is, the rows must have values for the
/// primary key.
pub proof fn law_plain_rows_can_be_inserted(
    schema: Schema,
    table: TableView,
    columns: Seq<ColumnId>,
    rows: Seq<Seq<ValueView>>,
)
    requires
        table.key_index.index < table.indices.len(),
        forall|i: int|
            0 <= i < table.indices[table.key_index.index as int].columns.len() ==> (
            #[trigger] table.indices[table.key_index.index as int].columns[i]).column.index
                < table.columns.len(),
        forall|i: int| 0 <= i < columns.len() ==> is_in_schema(schema, #[trigger] columns[i]),
        forall|i: int|
            0 <= i < table.indices.len() ==> is_over_schema(schema, #[trigger] table.indices[i]),
        forall|i: int| 0 <= i < rows.len() ==> is_plain_row(columns, #[trigger] rows[i]),
        sort_columns(table).len() > 1 ==> forall|k: int|
            0 <= k < sort_columns(table).len() ==> columns.contains(
                #[trigger] sort_columns(table)[k],
            ),
        table.indices.filter_map(updated_by(schema, columns)).len() <= 1,
        table.indices.filter_map(updated_by(schema, columns)).len() == 1 ==> forall|i: int|
            0 <= i < rows.len() ==> has_key_values(schema, table, columns, #[trigger] rows[i]),
    ensures
        can_insert(schema, table, columns, rows),
{
    let sk_cols = sort_columns(table);
    lemma_updated(schema, columns, table.indices);
    let updated = table.indices.filter_map(updated_by(schema, columns));
    assert forall|i: int| 0 <= i < columns.len() implies schema.has_column(
        #[trigger] columns[i],
    ) by {
        assert(is_in_schema(schema, columns[i]));
    }
    assert forall|i: int| 0 <= i < table.indices.len() implies coverage_known(
        schema,
        columns,
        #[trigger] table.indices[i],
    ) by {
        let index = table.indices[i];
        assert(is_over_schema(schema, index));
        assert forall|j: int|
            0 <= j < index.columns.len()
                && #[trigger] crate::insert_plan::is_covered_up_to(
                schema,
                columns,
                index,
                j,
            ) implies schema.has_column(index.columns[j].column) by {
            assert(is_in_schema(schema, index.columns[j].column));
        }
    }
    assert forall|i: int| 0 <= i < rows.len() implies row_fits(
        columns,
        sk_cols,
        #[trigger] rows[i],
    ) by {
        let row = rows[i];
        assert(is_plain_row(columns, row));
        assert forall|j: int|
            0 <= j < columns.len() && !is_joined(sk_cols, #[trigger] columns[j]) && !(
            row[j] is Null) implies is_storable(row[j]) by {
            assert(row[j] is Null || is_plain_value(row[j]));
        }
    }
    if updated.len() == 1 {
        assert forall|i: int| 0 <= i < rows.len() implies key_present(
            schema,
            table,
            updated[0],
            item_of(schema, columns, sk_cols, #[trigger] rows[i]),
        ) by {
            let row = rows[i];
            let item = item_of(schema, columns, sk_cols, row);
            law_item_has_exactly_the_values(schema, columns, sk_cols, row);
            assert(has_key_values(schema, table, columns, row));
            assert forall|k: int| 0 <= k < table.key_columns.len() implies table.has_column(
                #[trigger] table.key_columns[k],
            ) && item.contains_key(table.column(table.key_columns[k]).name) by {
                let id = table.key_columns[k];
                let p = choose|p: int| #[trigger]
                    is_from_place(
                        schema,
                        columns,
                        sk_cols,
                        row,
                        table.columns[id.index as int].name,
                        p,
                    );
                assert(is_from_place(
                    schema,
                    columns,
                    sk_cols,
                    row,
                    table.columns[id.index as int].name,
                    p,
                ));
            }
        }
    }
}

} // verus!

//! Requests for whatever is asked for, or none where it cannot be done.

use crate::attribute::{AttributeValue, is_key_type, is_storable};
use crate::db::{Column, ColumnId, Index, IndexScope, IndexView, Schema, Table};
use crate::delimited::texts;
use crate::expression::{ExprAttrs, is_supported, referred};
use crate::insert_plan::{
    Insert, InsertPlan, build_item, can_insert, coverage_known, has_column, index_attributes,
    index_known, index_put, insertion, is_covered_up_to, is_joined, item_of, key_present,
    lemma_covered, lemma_missing, plan_insert, row_fits, row_views, updated_indices, updates,
};
use crate::key_expression::{
    BuildKeyExpression, KeyConditions, components, is_key_condition, is_prefix_condition,
    key_condition_ready, wanted_text,
};
use crate::keys::{
    attribute_views, is_keyed, key_index, local_known, sort_columns, sort_key_columns,
};
use crate::query_plan::{QueryPk, QueryPlan, can_query, plan_query_pk, query};
use crate::stmt::{BinaryOp, Expr, ExprBinaryOp, ExprReference, Type, Value, value_views};
use crate::string_map::{StringMap, entries_map, has_key, keys_distinct, lemma_entry_of, place_of};
use crate::table_plan::{
    CreateTablePlan, all_key_types, can_create, collect_attributes, creates_table,
    creates_unique, deleted, index_fits, key_columns, keys_found,
    is_unique, lemma_scoped, plan_create_table, unique_indices,
};
use vstd::prelude::*;

verus! {

/// Whether values of the type can be part of a key.
fn check_key_type(ty: Type) -> (r: bool)
    ensures
        r == is_key_type(ty),
{
    match ty {
        Type::Bool
        | Type::String
        | Type::Enum(_)
        | Type::I8
        | Type::I16
        | Type::I32
        | Type::I64
        | Type::Id(_) => true,
        _ => false,
    }
}

/// Whether there is an index over the primary key, and all its columns are the table's.
pub fn check_keyed(table: &Table) -> (r: bool)
    ensures
        r == is_keyed(table@),
{
    let at: usize = table.primary_key.index.index;
    if at >= table.indices.len() {
        return false;
    }
    let index = &table.indices[at];
    assert(index.columns@ == key_index(table@).columns);
    let mut i: usize = 0;
    while i < index.columns.len()
        invariant
            i <= index.columns@.len(),
            index.columns@ == key_index(table@).columns,
            at == table@.key_index.index,
            at < table@.indices.len(),
            forall|k: int|
                0 <= k < i ==> table@.has_column((#[trigger] key_index(table@).columns[k]).column),
        decreases index.columns@.len() - i,
    {
        if index.columns[i].column.index >= table.columns.len() {
            assert(!table@.has_column(key_index(table@).columns[i as int].column));
            return false;
        }
        i = i + 1;
    }
    true
}

/// Whether there is an index over the primary key, and the columns of the local key
/// are the table's.
pub fn check_local(table: &Table) -> (r: bool)
    ensures
        r == local_known(table@),
{
    let at: usize = table.primary_key.index.index;
    if at >= table.indices.len() {
        return false;
    }
    let index = &table.indices[at];
    assert(index.columns@ == key_index(table@).columns);
    let mut i: usize = 0;
    while i < index.columns.len()
        invariant
            i <= index.columns@.len(),
            index.columns@ == key_index(table@).columns,
            at == table@.key_index.index,
            at < table@.indices.len(),
            forall|k: int|
                0 <= k < i && (#[trigger] key_index(table@).columns[k]).scope == IndexScope::Local
                    ==> table@.has_column(key_index(table@).columns[k].column),
        decreases index.columns@.len() - i,
    {
        let column = index.columns[i];
        assert(column == key_index(table@).columns[i as int]);
        if column.scope == IndexScope::Local && column.column.index >= table.columns.len() {
            return false;
        }
        i = i + 1;
    }
    true
}

/// Whether the identifier names a column of the schema.
pub fn check_column(schema: &Schema, id: ColumnId) -> (r: bool)
    ensures
        r == schema.has_column(id),
{
    id.table.0 < schema.tables.len() && id.index < schema.tables[id.table.0].columns.len()
}

/// Whether an index is over a single column, and one whose type can be part of a key
/// if the index is stored in a table of its own.
fn check_index(schema: &Schema, table: &Table, index: &Index) -> (r: bool)
    ensures
        r == index_fits(*schema, table@, index@),
{
    if index.primary_key {
        true
    } else if index.columns.len() != 1 {
        false
    } else {
        let id = index.columns[0].column;
        if index.unique {
            check_column(schema, id) && check_key_type(schema.column(id).ty)
        } else {
            id.index < table.columns.len()
        }
    }
}

/// Whether the columns that become attributes of a key are there.
fn check_keys_found(schema: &Schema, table: &Table) -> (r: bool)
    ensures
        r == keys_found(*schema, table@),
{
    if table.primary_key.index.index >= table.indices.len() {
        return false;
    }
    let partition = key_columns(table, IndexScope::Partition);
    let local = key_columns(table, IndexScope::Local);
    if partition.len() != 1 || partition[0].index >= table.columns.len() {
        return false;
    }
    if local.len() == 1 && local[0].index >= table.columns.len() {
        return false;
    }
    let mut i: usize = 0;
    while i < table.indices.len()
        invariant
            i <= table.indices@.len(),
            forall|k: int|
                0 <= k < i ==> index_fits(*schema, table@, #[trigger] table@.indices[k]),
        decreases table.indices@.len() - i,
    {
        assert(table@.indices[i as int] == table.indices@[i as int]@);
        if !check_index(schema, table, &table.indices[i]) {
            assert(!index_fits(*schema, table@, table@.indices[i as int]));
            return false;
        }
        i = i + 1;
    }
    true
}

/// Whether all the types can be part of a key.
fn check_key_types(attributes: StringMap<Type>) -> (r: bool)
    ensures
        r == all_key_types(attributes@),
{
    let ghost map = attributes@;
    let entries = attributes.into_entries();
    let mut i: usize = 0;
    while i < entries.len()
        invariant
            i <= entries@.len(),
            keys_distinct(entries@),
            map == attributes@,
            entries_map(entries@) == map,
            forall|k: int| 0 <= k < i ==> is_key_type((#[trigger] entries@[k]).1),
        decreases entries@.len() - i,
    {
        if !check_key_type(entries[i].1) {
            proof {
                lemma_entry_of(entries@, i as int);
                assert(map.contains_key(entries@[i as int].0@));
            }
            return false;
        }
        i = i + 1;
    }
    proof {
        assert forall|name: Seq<char>| #[trigger] map.contains_key(name) implies is_key_type(
            map[name],
        ) by {
            assert(has_key(entries@, name));
            let k = place_of(entries@, name);
            lemma_entry_of(entries@, k);
            assert(is_key_type(entries@[k].1));
        }
    }
    true
}

/// Whether requests can be made for a table.
pub fn check_create(schema: &Schema, table: &Table) -> (r: bool)
    ensures
        r == can_create(*schema, table@),
{
    check_keys_found(schema, table) && check_key_types(collect_attributes(schema, table))
}

/// What creates a table of the schema, if requests can be made for it.
pub fn try_plan_create_table(schema: &Schema, table: &Table, reset: bool) -> (r: Option<
    CreateTablePlan,
>)
    ensures
        r is Some == can_create(*schema, table@),
        r matches Some(plan) ==> {
            &&& texts(plan.delete@) == deleted(table@, reset)
            &&& plan.create@.len() == 1 + unique_indices(table@.indices).len()
            &&& creates_table(plan.create@[0], table@)
            &&& forall|i: int|
                0 <= i < unique_indices(table@.indices).len() ==> creates_unique(
                    #[trigger] plan.create@[i + 1],
                    *schema,
                    unique_indices(table@.indices)[i],
                )
        },
{
    if check_create(schema, table) {
        Some(plan_create_table(schema, table, reset))
    } else {
        None
    }
}

/// Whether a value can be stored as an attribute.
pub fn check_storable(value: &Value) -> (r: bool)
    ensures
        r == is_storable(value@),
{
    match value {
        Value::Null | Value::Record(_) => false,
        Value::Enum(e) => {
            if e.fields.len() == 0 {
                true
            } else if e.fields.len() == 1 {
                assert(value@->Enum_1[0] == e.fields@[0]@);
                match &e.fields[0] {
                    Value::Null
                    | Value::Bytes(_)
                    | Value::Uuid(_)
                    | Value::Enum(_)
                    | Value::Record(_) => false,
                    _ => true,
                }
            } else {
                false
            }
        },
        _ => true,
    }
}

/// Whether a row has a value for every column, and those that are stored on their
/// own can be.
fn check_row(columns: &Vec<ColumnId>, sk_cols: &Vec<ColumnId>, row: &Vec<Value>) -> (r: bool)
    ensures
        r == row_fits(columns@, sk_cols@, value_views(row@)),
{
    if columns.len() > row.len() {
        return false;
    }
    let ghost values = value_views(row@);
    let mut i: usize = 0;
    while i < columns.len()
        invariant
            i <= columns@.len(),
            columns@.len() <= row@.len(),
            values == value_views(row@),
            forall|k: int|
                0 <= k < i && !is_joined(sk_cols@, #[trigger] columns@[k]) && !(values[k] is Null)
                    ==> is_storable(values[k]),
        decreases columns@.len() - i,
    {
        assert(values[i as int] == row@[i as int]@);
        if !(sk_cols.len() > 1 && has_column(sk_cols, columns[i])) && !row[i].is_null()
            && !check_storable(&row[i]) {
            assert(!is_joined(sk_cols@, columns@[i as int]));
            return false;
        }
        i = i + 1;
    }
    true
}

/// Whether it can be told if the rows have values for an index.
fn check_coverage(schema: &Schema, columns: &Vec<ColumnId>, index: &Index) -> (r: bool)
    ensures
        r == coverage_known(*schema, columns@, index@),
{
    if index.primary_key || !index.unique {
        return true;
    }
    let mut i: usize = 0;
    while i < index.columns.len()
        invariant
            i <= index.columns@.len(),
            is_unique(index@),
            is_covered_up_to(*schema, columns@, index@, i as int),
            forall|j: int|
                0 <= j < i ==> schema.has_column((#[trigger] index@.columns[j]).column),
        decreases index.columns@.len() - i,
    {
        let id = index.columns[i].column;
        assert(id == index@.columns[i as int].column);
        if !check_column(schema, id) {
            assert(is_covered_up_to(*schema, columns@, index@, i as int));
            return false;
        }
        if !has_column(columns, schema.column(id).id) {
            proof {
                assert forall|j: int|
                    0 <= j < index@.columns.len() && #[trigger] is_covered_up_to(
                        *schema,
                        columns@,
                        index@,
                        j,
                    ) implies schema.has_column(index@.columns[j].column) by {
                    if j > i {
                        assert(!columns@.contains(
                            schema.column_view(index@.columns[i as int].column).id,
                        ));
                    } else {
                        assert(schema.has_column(index@.columns[j].column));
                    }
                }
            }
            return true;
        }
        i = i + 1;
    }
    true
}

/// The places of the unique indices that the rows have values for.
fn list_updated(schema: &Schema, table: &Table, columns: &Vec<ColumnId>) -> (r: Vec<usize>)
    requires
        forall|i: int|
            0 <= i < table@.indices.len() ==> coverage_known(
                *schema,
                columns@,
                #[trigger] table@.indices[i],
            ),
    ensures
        r@.len() == updated_indices(*schema, columns@, table@.indices).len(),
        forall|k: int|
            0 <= k < r@.len() ==> {
                &&& (#[trigger] r@[k]) < table@.indices.len()
                &&& table@.indices[r@[k] as int] == updated_indices(
                    *schema,
                    columns@,
                    table@.indices,
                )[k]
                &&& index_known(*schema, table@.indices[r@[k] as int])
            },
{
    let ghost indices = table@.indices;
    let mut r: Vec<usize> = Vec::new();
    let mut i: usize = 0;
    assert(indices.take(0) =~= Seq::<IndexView>::empty());
    while i < table.indices.len()
        invariant
            i <= indices.len(),
            indices == table@.indices,
            forall|k: int|
                0 <= k < indices.len() ==> coverage_known(
                    *schema,
                    columns@,
                    #[trigger] table@.indices[k],
                ),
            r@.len() == updated_indices(*schema, columns@, indices.take(i as int)).len(),
            forall|k: int|
                0 <= k < r@.len() ==> {
                    &&& (#[trigger] r@[k]) < indices.len()
                    &&& indices[r@[k] as int] == updated_indices(
                        *schema,
                        columns@,
                        indices.take(i as int),
                    )[k]
                    &&& index_known(*schema, indices[r@[k] as int])
                },
        decreases indices.len() - i,
    {
        assert(coverage_known(*schema, columns@, table@.indices[i as int]));
        assert(indices[i as int] == table.indices@[i as int]@);
        assert(indices.take(i + 1).drop_last() =~= indices.take(i as int));
        if updates(schema, columns, &table.indices[i]) {
            proof {
                lemma_covered(*schema, columns@, table.indices@[i as int]@);
            }
            r.push(i);
        }
        i = i + 1;
    }
    assert(indices.take(i as int) =~= indices);
    r
}

/// Whether the item has a value for every column of the index.
fn check_index_values(schema: &Schema, index: &Index, item: &StringMap<AttributeValue>) -> (r: bool)
    requires
        index_known(*schema, index@),
    ensures
        r == index_attributes(
            *schema,
            index@,
            attribute_views(item@),
            index@.columns.len(),
        ) is Some,
{
    let ghost view = attribute_views(item@);
    let mut i: usize = 0;
    while i < index.columns.len()
        invariant
            i <= index.columns@.len(),
            view == attribute_views(item@),
            index_known(*schema, index@),
            index_attributes(*schema, index@, view, i as nat) is Some,
        decreases index.columns@.len() - i,
    {
        assert(schema.has_column(index@.columns[i as int].column));
        let column = schema.column(index.columns[i].column);
        if !item.contains_key(column.name.as_str()) {
            proof {
                lemma_missing(*schema, index@, view, i as nat);
            }
            return false;
        }
        i = i + 1;
    }
    true
}

/// Whether the columns of the primary key are the table's, and the item has an
/// attribute for each of them, if it goes into the index.
fn check_key_present(
    schema: &Schema,
    table: &Table,
    index: &Index,
    item: &StringMap<AttributeValue>,
) -> (r: bool)
    requires
        index_known(*schema, index@),
    ensures
        r == key_present(*schema, table@, index@, attribute_views(item@)),
{
    let ghost view = attribute_views(item@);
    if !check_index_values(schema, index, item) {
        return true;
    }
    let mut k: usize = 0;
    while k < table.primary_key.columns.len()
        invariant
            k <= table@.key_columns.len(),
            view == attribute_views(item@),
            index_put(*schema, table@, index@, view) is Some,
            forall|j: int|
                0 <= j < k ==> table@.has_column(#[trigger] table@.key_columns[j])
                    && view.contains_key(table@.column(table@.key_columns[j]).name),
        decreases table@.key_columns.len() - k,
    {
        let id = table.primary_key.columns[k];
        assert(id == table@.key_columns[k as int]);
        if id.index >= table.columns.len() {
            return false;
        }
        let column = table.column(id);
        if !item.contains_key(column.name.as_str()) {
            assert(!view.contains_key(table@.column(table@.key_columns[k as int]).name));
            return false;
        }
        k = k + 1;
    }
    true
}

/// Whether all the columns are columns of the schema.
fn check_columns(schema: &Schema, columns: &Vec<ColumnId>) -> (r: bool)
    ensures
        r == (forall|i: int|
            0 <= i < columns@.len() ==> schema.has_column(#[trigger] columns@[i])),
{
    let mut i: usize = 0;
    while i < columns.len()
        invariant
            i <= columns@.len(),
            forall|k: int| 0 <= k < i ==> schema.has_column(#[trigger] columns@[k]),
        decreases columns@.len() - i,
    {
        if !check_column(schema, columns[i]) {
            assert(!schema.has_column(columns@[i as int]));
            return false;
        }
        i = i + 1;
    }
    true
}

/// Whether all of the columns are among the others.
fn check_all_among(wanted: &Vec<ColumnId>, columns: &Vec<ColumnId>) -> (r: bool)
    ensures
        r == (forall|k: int|
            0 <= k < wanted@.len() ==> columns@.contains(#[trigger] wanted@[k])),
{
    let mut i: usize = 0;
    while i < wanted.len()
        invariant
            i <= wanted@.len(),
            forall|k: int| 0 <= k < i ==> columns@.contains(#[trigger] wanted@[k]),
        decreases wanted@.len() - i,
    {
        if !has_column(columns, wanted[i]) {
            assert(!columns@.contains(wanted@[i as int]));
            return false;
        }
        i = i + 1;
    }
    true
}

/// Whether rows can be inserted into their table.
pub fn check_insert(schema: &Schema, insert: &Insert) -> (r: bool)
    requires
        insert.table.0 < schema.tables@.len(),
    ensures
        r == can_insert(
            *schema,
            schema.tables@[insert.table.0 as int]@,
            insert.columns@,
            row_views(insert.rows@),
        ),
{
    let table = schema.table(insert.table);
    let columns = &insert.columns;
    let ghost rows = row_views(insert.rows@);
    assert(rows.len() == insert.rows@.len());
    if !check_local(table) || (insert.rows.len() > 0 && !check_columns(schema, columns)) {
        return false;
    }
    let sk_cols = sort_key_columns(table);
    let mut i: usize = 0;
    while i < table.indices.len()
        invariant
            i <= table.indices@.len(),
            *table == schema.tables@[insert.table.0 as int],
            columns == &insert.columns,
            forall|k: int|
                0 <= k < i ==> coverage_known(*schema, columns@, #[trigger] table@.indices[k]),
        decreases table.indices@.len() - i,
    {
        assert(table@.indices[i as int] == table.indices@[i as int]@);
        if !check_coverage(schema, columns, &table.indices[i]) {
            assert(!coverage_known(*schema, columns@, table@.indices[i as int]));
            return false;
        }
        i = i + 1;
    }
    let mut j: usize = 0;
    while j < insert.rows.len()
        invariant
            j <= insert.rows@.len(),
            rows == row_views(insert.rows@),
            columns == &insert.columns,
            *table == schema.tables@[insert.table.0 as int],
            sk_cols@ == sort_columns(table@),
            forall|k: int|
                0 <= k < j ==> row_fits(columns@, sk_cols@, #[trigger] rows[k]),
        decreases insert.rows@.len() - j,
    {
        assert(rows[j as int] == value_views(insert.rows@[j as int]@));
        if !check_row(columns, &sk_cols, &insert.rows[j]) {
            assert(!row_fits(columns@, sk_cols@, rows[j as int]));
            return false;
        }
        j = j + 1;
    }
    if sk_cols.len() > 1 && insert.rows.len() > 0 && !check_all_among(&sk_cols, columns) {
        return false;
    }
    let updated = list_updated(schema, table, columns);
    if updated.len() > 1 {
        return false;
    }
    if updated.len() == 1 {
        let at: usize = updated[0];
        let ghost all = updated_indices(*schema, columns@, table@.indices);
        assert(updated@[0] < table@.indices.len());
        let index = &table.indices[at];
        assert(index@ == all[0]);
        return check_index_rows(schema, insert, table, &sk_cols, index);
    }
    true
}

/// Whether the items of rows that go into a unique index have all the attributes
/// of the primary key.
fn check_index_rows(
    schema: &Schema,
    insert: &Insert,
    table: &Table,
    sk_cols: &Vec<ColumnId>,
    index: &Index,
) -> (r: bool)
    requires
        sk_cols@ == sort_columns(table@),
        index_known(*schema, index@),
        insert.rows@.len() > 0 ==> forall|i: int|
            0 <= i < insert.columns@.len() ==> schema.has_column(#[trigger] insert.columns@[i]),
        forall|i: int|
            0 <= i < insert.rows@.len() ==> row_fits(
                insert.columns@,
                sk_cols@,
                #[trigger] row_views(insert.rows@)[i],
            ),
        sk_cols@.len() > 1 && insert.rows@.len() > 0 ==> forall|k: int|
            0 <= k < sk_cols@.len() ==> insert.columns@.contains(#[trigger] sk_cols@[k]),
    ensures
        r == (forall|i: int|
            0 <= i < row_views(insert.rows@).len() ==> key_present(
                *schema,
                table@,
                index@,
                item_of(
                    *schema,
                    insert.columns@,
                    sk_cols@,
                    #[trigger] row_views(insert.rows@)[i],
                ),
            )),
{
    let ghost rows = row_views(insert.rows@);
    let mut i: usize = 0;
    while i < insert.rows.len()
        invariant
            i <= insert.rows@.len(),
            rows == row_views(insert.rows@),
            index_known(*schema, index@),
            insert.rows@.len() > 0 ==> forall|k: int|
                0 <= k < insert.columns@.len() ==> schema.has_column(#[trigger] insert.columns@[k]),
            forall|k: int|
                0 <= k < insert.rows@.len() ==> row_fits(
                    insert.columns@,
                    sk_cols@,
                    #[trigger] rows[k],
                ),
            sk_cols@.len() > 1 && insert.rows@.len() > 0 ==> forall|k: int|
                0 <= k < sk_cols@.len() ==> insert.columns@.contains(#[trigger] sk_cols@[k]),
            forall|k: int|
                0 <= k < i ==> key_present(
                    *schema,
                    table@,
                    index@,
                    item_of(*schema, insert.columns@, sk_cols@, #[trigger] rows[k]),
                ),
        decreases insert.rows@.len() - i,
    {
        assert(row_fits(insert.columns@, sk_cols@, rows[i as int]));
        assert(rows[i as int] == value_views(insert.rows@[i as int]@));
        let item = build_item(schema, &insert.columns, sk_cols, &insert.rows[i]);
        if !check_key_present(schema, table, index, &item) {
            return false;
        }
        i = i + 1;
    }
    true
}

/// The request that inserts rows, and the number of rows, if they can be inserted.
pub fn try_plan_insert(schema: &Schema, insert: &Insert) -> (r: Option<(InsertPlan, usize)>)
    ensures
        match r {
            Some((plan, count)) => {
                let table = schema.tables@[insert.table.0 as int]@;
                &&& insert.table.0 < schema.tables@.len()
                &&& can_insert(*schema, table, insert.columns@, row_views(insert.rows@))
                &&& plan@ == insertion(*schema, table, insert.columns@, row_views(insert.rows@))
                &&& count == insert.rows@.len()
            },
            None => insert.table.0 >= schema.tables@.len() || !can_insert(
                *schema,
                schema.tables@[insert.table.0 as int]@,
                insert.columns@,
                row_views(insert.rows@),
            ),
        },
{
    if insert.table.0 < schema.tables.len() && check_insert(schema, insert) {
        Some(plan_insert(schema, insert))
    } else {
        None
    }
}

/// Whether an expression can be written as a condition.
pub fn check_supported(table: &Table, primary: bool, expr: &Expr) -> (r: bool)
    ensures
        r == is_supported(table@, primary, *expr),
    decreases expr, 0nat,
{
    match expr {
        Expr::BinaryOp(op) => check_supported(table, primary, &op.lhs) && check_supported(
            table,
            primary,
            &op.rhs,
        ) && !(primary && op.op == BinaryOp::Ne),
        Expr::Reference(reference) => check_reference(table, reference),
        Expr::Value(value) => check_storable(value),
        Expr::And(operands) => check_operands(table, primary, operands),
        Expr::BeginsWith(begins_with) => check_supported(table, primary, &begins_with.expr)
            && check_supported(table, primary, &begins_with.pattern),
        _ => false,
    }
}

/// Whether a reference names a column of the table.
fn check_reference(table: &Table, reference: &ExprReference) -> (r: bool)
    ensures
        r == (referred(*reference) matches Some(i) && i < table@.columns.len()),
{
    match reference {
        ExprReference::Column(column) => column.nesting == 0 && column.column
            < table.columns.len(),
        ExprReference::Field(_) => false,
    }
}

/// Whether all the expressions can be written as conditions.
fn check_operands(table: &Table, primary: bool, operands: &Vec<Expr>) -> (r: bool)
    ensures
        r == (forall|i: int|
            0 <= i < operands@.len() ==> is_supported(table@, primary, #[trigger] operands@[i])),
    decreases operands, operands@.len(),
{
    let mut i: usize = 0;
    while i < operands.len()
        invariant
            i <= operands@.len(),
            forall|k: int|
                0 <= k < i ==> is_supported(table@, primary, #[trigger] operands@[k]),
        decreases operands@.len() - i,
    {
        if !check_supported(table, primary, &operands[i]) {
            assert(!is_supported(table@, primary, operands@[i as int]));
            return false;
        }
        i = i + 1;
    }
    true
}

/// Whether an expression is made of equations that all must hold.
pub fn check_key_condition(table: &Table, expr: &Expr) -> (r: bool)
    ensures
        r == is_key_condition(table@, *expr),
    decreases expr, 0nat,
{
    match expr {
        Expr::And(operands) => check_key_operands(table, operands),
        Expr::BinaryOp(op) => {
            match &*op.lhs {
                Expr::Reference(reference) => op.op == BinaryOp::Eq && check_reference(
                    table,
                    reference,
                ),
                _ => false,
            }
        },
        Expr::IsNull(inner) => check_key_condition(table, inner),
        Expr::Value(_) | Expr::Reference(_) => true,
        _ => false,
    }
}

/// Whether all the expressions are made of equations that all must hold.
fn check_key_operands(table: &Table, operands: &Vec<Expr>) -> (r: bool)
    ensures
        r == (forall|i: int|
            0 <= i < operands@.len() ==> is_key_condition(table@, #[trigger] operands@[i])),
    decreases operands, operands@.len(),
{
    let mut i: usize = 0;
    while i < operands.len()
        invariant
            i <= operands@.len(),
            forall|k: int| 0 <= k < i ==> is_key_condition(table@, #[trigger] operands@[k]),
        decreases operands@.len() - i,
    {
        if !check_key_condition(table, &operands[i]) {
            assert(!is_key_condition(table@, operands@[i as int]));
            return false;
        }
        i = i + 1;
    }
    true
}

impl<'a> BuildKeyExpression<'a> {
    /// Whether the comparisons on the local key are on its first columns, without a
    /// gap, and with text.
    fn check_prefix(&self) -> (r: bool)
        ensures
            r == is_prefix_condition(self.conditions().sk, self.sk_columns@),
    {
        let ghost sk = self.conditions().sk;
        let mut missing = false;
        let mut i: usize = 0;
        while i < self.sk_columns.len()
            invariant
                i <= self.sk_columns@.len(),
                sk == self.conditions().sk,
                missing == (exists|k: int|
                    0 <= k < i && !sk.contains_key(#[trigger] self.sk_columns@[k])),
                forall|k: int|
                    0 <= k < i && sk.contains_key(#[trigger] self.sk_columns@[k]) ==> {
                        &&& wanted_text(sk[self.sk_columns@[k]]) is Some
                        &&& forall|j: int|
                            0 <= j < k ==> sk.contains_key(#[trigger] self.sk_columns@[j])
                    },
            decreases self.sk_columns@.len() - i,
        {
            let ghost id = self.sk_columns@[i as int];
            match self.find_component(self.sk_columns[i]) {
                Some(op) => {
                    assert(sk.contains_key(id) && sk[id] == *op);
                    if missing {
                        proof {
                            let k = choose|k: int|
                                0 <= k < i && !sk.contains_key(#[trigger] self.sk_columns@[k]);
                            assert(!sk.contains_key(self.sk_columns@[k]));
                            assert(sk.contains_key(self.sk_columns@[i as int]));
                        }
                        return false;
                    }
                    match &*op.rhs {
                        Expr::Value(Value::String(_)) => {},
                        _ => {
                            assert(sk.contains_key(self.sk_columns@[i as int]));
                            return false;
                        },
                    }
                },
                None => {
                    assert(!sk.contains_key(self.sk_columns@[i as int]));
                    missing = true;
                },
            }
            i = i + 1;
        }
        true
    }

    /// Whether the expression can be written as a condition on the key, once its
    /// comparisons are collected.
    fn check_collected(&self) -> (r: bool)
        ensures
            r == ({
                let all = self.conditions();
                &&& all.pk is Some
                &&& all.pk->0.op == BinaryOp::Eq
                &&& is_supported(self.table@, true, *all.pk->0.lhs)
                &&& is_supported(self.table@, true, *all.pk->0.rhs)
                &&& is_prefix_condition(all.sk, self.sk_columns@)
            }),
    {
        match self.pk_component {
            Some(op) => op.op == BinaryOp::Eq && check_supported(self.table, true, &op.lhs)
                && check_supported(self.table, true, &op.rhs) && self.check_prefix(),
            None => false,
        }
    }
}

/// Whether rows of the table can be looked up with the given conditions.
pub fn check_query(table: &Table, op: &QueryPk) -> (r: bool)
    ensures
        r == can_query(table@, op.pk_filter, op.filter),
{
    if !check_keyed(table) {
        return false;
    }
    let partition = key_columns(table, IndexScope::Partition);
    if partition.len() != 1 {
        return false;
    }
    proof {
        lemma_scoped(table@, key_index(table@).columns, IndexScope::Partition);
    }
    assert(table@.has_column(partition@[0]));
    let pk_column = table.column(partition[0]);
    let sk_cols = sort_key_columns(table);
    let ready = if sk_cols.len() > 1 {
        check_joined_query(table, op, pk_column, &sk_cols)
    } else {
        check_supported(table, true, &op.pk_filter)
    };
    ready && match &op.filter {
        Some(expr) => check_supported(table, false, expr),
        None => true,
    }
}

/// Whether a look-up in a table whose local key is joined can be written.
fn check_joined_query(
    table: &Table,
    op: &QueryPk,
    pk_column: &Column,
    sk_cols: &Vec<ColumnId>,
) -> (r: bool)
    ensures
        r == key_condition_ready(
            table@,
            pk_column.id,
            sk_cols@,
            true,
            KeyConditions::empty(),
            op.pk_filter,
        ),
{
    if !check_key_condition(table, &op.pk_filter) {
        return false;
    }
    let mut attrs = ExprAttrs::new();
    let sk_components: Vec<(ColumnId, &ExprBinaryOp)> = Vec::new();
    assert(components(sk_components@) =~= KeyConditions::empty().sk);
    let mut build = BuildKeyExpression {
        table,
        attrs: &mut attrs,
        expr: &op.pk_filter,
        pk_column,
        sk_columns: sk_cols,
        concat_sk: true,
        sk_components,
        pk_component: None,
    };
    assert(build.conditions() =~= KeyConditions::empty());
    build.visit_expr(&op.pk_filter);
    build.check_collected()
}

/// The request that looks rows up, if it can be made.
pub fn try_plan_query_pk(schema: &Schema, op: &QueryPk) -> (r: Option<QueryPlan>)
    ensures
        match r {
            Some(plan) => {
                let table = schema.tables@[op.table.0 as int]@;
                &&& op.table.0 < schema.tables@.len()
                &&& can_query(table, op.pk_filter, op.filter)
                &&& plan@ == query(table, op.pk_filter, op.filter)
            },
            None => op.table.0 >= schema.tables@.len() || !can_query(
                schema.tables@[op.table.0 as int]@,
                op.pk_filter,
                op.filter,
            ),
        },
{
    if op.table.0 < schema.tables.len() && check_query(schema.table(op.table), op) {
        Some(plan_query_pk(schema, op))
    } else {
        None
    }
}

} // verus!

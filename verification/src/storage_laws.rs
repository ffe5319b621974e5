//! What a read gives back of a write.

use crate::attribute::{AttributeView, attribute_of, has_type, is_storable, is_written};
use crate::db::{ColumnId, ColumnView, IndexColumn, IndexScope, Schema, TableView};
use crate::insert_plan::{is_joined, item_of, row_attributes, row_value, sort_values};
use crate::keys::{
    entry_values, key_attributes, key_fits, key_index, key_value, local_columns, local_entries,
    partition_entries, sort_columns, sort_key_text,
};
use crate::query_plan::selected;
use crate::records::{
    column_readable, is_stored, item_readable, law_sort_key_read_back, lemma_parts_by_column,
    lemma_written_parts, reads_back, record_of, sort_key_fits, sort_parts, text_up_to,
};
use crate::stmt::ValueView;
use crate::table_plan::scoped;
use vstd::prelude::*;

verus! {

/// Whether the columns are different ones with different names, each known under
/// its identifier, and none is called like the joined local key.
pub open spec fn columns_distinct(schema: Schema, columns: Seq<ColumnId>) -> bool {
    &&& forall|i: int| 0 <= i < columns.len() ==> is_plain(schema, #[trigger] columns[i])
    &&& forall|i: int, j: int|
        0 <= i < j < columns.len() ==> (#[trigger] columns[i]) != (#[trigger] columns[j])
            && schema.column_view(columns[i]).name != schema.column_view(columns[j]).name
}

/// Whether the column is known under its identifier and not called like the
/// joined local key.
pub open spec fn is_plain(schema: Schema, id: ColumnId) -> bool {
    schema.column_view(id).id == id && schema.column_view(id).name != "__sk"@
}

proof fn lemma_row_attributes(
    schema: Schema,
    columns: Seq<ColumnId>,
    sk_cols: Seq<ColumnId>,
    row: Seq<ValueView>,
    n: nat,
    i: int,
)
    requires
        columns_distinct(schema, columns),
        n <= columns.len(),
        0 <= i < columns.len(),
    ensures
        ({
            let attributes = row_attributes(schema, columns, sk_cols, row, n);
            let name = schema.column_view(columns[i]).name;
            &&& attributes.contains_key(name) == (i < n && !is_joined(sk_cols, columns[i]) && !(
            row[i] is Null))
            &&& attributes.contains_key(name) ==> attributes[name] == attribute_of(row[i])
            &&& !attributes.contains_key("__sk"@)
        }),
    decreases n,
{
    if n > 0 {
        lemma_row_attributes(schema, columns, sk_cols, row, (n - 1) as nat, i);
        assert(is_plain(schema, columns[n - 1]));
        if i < n - 1 {
            assert(columns[i] != columns[n - 1]);
        } else if i > n - 1 {
            assert(columns[n - 1] != columns[i]);
        }
    }
}

/// The item that stores a row has exactly the attributes of the values that
/// are not null and not joined, each under the name of its column.
pub proof fn law_item_holds_row(
    schema: Schema,
    columns: Seq<ColumnId>,
    sk_cols: Seq<ColumnId>,
    row: Seq<ValueView>,
    i: int,
)
    requires
        columns_distinct(schema, columns),
        0 <= i < columns.len(),
    ensures
        ({
            let item = item_of(schema, columns, sk_cols, row);
            let name = schema.column_view(columns[i]).name;
            &&& item.contains_key(name) == (!is_joined(sk_cols, columns[i]) && !(row[i] is Null))
            &&& item.contains_key(name) ==> item[name] == attribute_of(row[i])
            &&& item.contains_key("__sk"@) == (sk_cols.len() > 1)
        }),
{
    lemma_row_attributes(schema, columns, sk_cols, row, columns.len(), i);
    assert(is_plain(schema, columns[i]));
}

proof fn lemma_row_value(
    columns: Seq<ColumnId>,
    row: Seq<ValueView>,
    i: int,
    n: nat,
)
    requires
        0 <= i < n <= columns.len(),
        forall|j: int| i < j < columns.len() ==> #[trigger] columns[j] != columns[i],
    ensures
        row_value(columns, row, columns[i], n) == Some(row[i]),
    decreases n,
{
    if n - 1 > i {
        assert(columns[n - 1] != columns[i]);
        lemma_row_value(columns, row, i, (n - 1) as nat);
    }
}

/// Whether a value comes back from the column it is stored in: it is null, or of
/// the column's type.
pub open spec fn comes_back(column: ColumnView, v: ValueView) -> bool {
    v is Null || (has_type(column.ty, v) && is_storable(v))
}

/// Whether the column is one of the row's, or another one of another name.
pub open spec fn can_select(schema: Schema, columns: Seq<ColumnId>, id: ColumnId) -> bool {
    columns.contains(id) || columns_distinct(schema, columns.push(id))
}

/// The value that a row has for a column, or null if it has none.
pub open spec fn value_or_null(
    columns: Seq<ColumnId>,
    row: Seq<ValueView>,
    id: ColumnId,
) -> ValueView {
    match row_value(columns, row, id, columns.len()) {
        Some(v) => v,
        None => ValueView::Null,
    }
}

/// Whether the local key of a row, if it is joined, is given in full and can be taken
/// apart again: `n` texts without the delimiter, at least one, and then nulls.
pub open spec fn separable(
    columns: Seq<ColumnId>,
    sk_cols: Seq<ColumnId>,
    row: Seq<ValueView>,
    n: int,
) -> bool {
    let values = sort_values(columns, sk_cols, row);
    sk_cols.len() > 1 ==> {
        &&& forall|k: int| 0 <= k < sk_cols.len() ==> columns.contains(#[trigger] sk_cols[k])
        &&& n > 0
        &&& text_up_to(values, n)
        &&& forall|k: int| n <= k < sk_cols.len() ==> (#[trigger] values[k]) is Null
    }
}

/// A row that was inserted is read back.
///
/// The item that stores the row can be read, and every record that is read from it
/// has the row's value for each selected column that the row has a value for, and
/// null for the others. Where the local key is joined, its values must be text
/// without the delimiter, then nulls.
pub proof fn law_row_read_back(
    schema: Schema,
    columns: Seq<ColumnId>,
    sk_cols: Seq<ColumnId>,
    row: Seq<ValueView>,
    n: int,
    select: Seq<ColumnId>,
    record: Seq<ValueView>,
)
    requires
        columns_distinct(schema, columns),
        columns.len() <= row.len(),
        forall|i: int|
            0 <= i < columns.len() && !is_joined(sk_cols, #[trigger] columns[i]) ==> comes_back(
                schema.column_view(columns[i]),
                row[i],
            ),
        sk_cols.no_duplicates(),
        separable(columns, sk_cols, row, n),
        forall|j: int| 0 <= j < select.len() ==> can_select(schema, columns, #[trigger] select[j]),
    ensures
        ({
            let item = item_of(schema, columns, sk_cols, row);
            let wanted = selected(schema, select);
            &&& item_readable(item, wanted, sk_cols)
            &&& record == record_of(item, wanted, sk_cols) && reads_back(item, wanted, record)
                ==> record == select.map_values(|id: ColumnId| value_or_null(columns, row, id))
        }),
{
    let item = item_of(schema, columns, sk_cols, row);
    let wanted = selected(schema, select);
    let expected = select.map_values(|id: ColumnId| value_or_null(columns, row, id));
    lemma_item_fits(schema, columns, sk_cols, row, n);
    assert forall|j: int| 0 <= j < wanted.len() implies column_readable(
        item,
        #[trigger] wanted[j],
    ) by {
        assert(can_select(schema, columns, select[j]));
        lemma_column_read_back(schema, columns, sk_cols, row, n, select[j]);
    }
    if record == record_of(item, wanted, sk_cols) && reads_back(item, wanted, record) {
        assert forall|j: int| 0 <= j < select.len() implies #[trigger] record[j] == expected[j] by {
            assert(can_select(schema, columns, select[j]));
            lemma_column_read_back(schema, columns, sk_cols, row, n, select[j]);
            let column = wanted[j];
            let v = expected[j];
            if item.contains_key(column.name) {
                assert(is_stored(item, wanted[j], v));
                assert(item[wanted[j].name] == attribute_of(v));
            } else {
                assert(record[j] == record_of(item, seq![column], sk_cols)[0]);
            }
        }
        assert(record =~= expected);
    }
}

/// The joined local key of an item, if it has one, has no more components than columns.
proof fn lemma_item_fits(
    schema: Schema,
    columns: Seq<ColumnId>,
    sk_cols: Seq<ColumnId>,
    row: Seq<ValueView>,
    n: int,
)
    requires
        columns_distinct(schema, columns),
        separable(columns, sk_cols, row, n),
    ensures
        item_of(schema, columns, sk_cols, row).contains_key("__sk"@) == (sk_cols.len() > 1),
        sort_key_fits(item_of(schema, columns, sk_cols, row), sk_cols),
{
    let item = item_of(schema, columns, sk_cols, row);
    lemma_no_sort_key(schema, columns, sk_cols, row, columns.len());
    if sk_cols.len() > 1 {
        lemma_sort_key_fits(item, sort_values(columns, sk_cols, row), sk_cols, n);
    }
}

/// No column is stored under the name of the joined local key.
proof fn lemma_no_sort_key(
    schema: Schema,
    columns: Seq<ColumnId>,
    sk_cols: Seq<ColumnId>,
    row: Seq<ValueView>,
    n: nat,
)
    requires
        columns_distinct(schema, columns),
        n <= columns.len(),
    ensures
        !row_attributes(schema, columns, sk_cols, row, n).contains_key("__sk"@),
    decreases n,
{
    if n > 0 {
        lemma_no_sort_key(schema, columns, sk_cols, row, (n - 1) as nat);
        assert(is_plain(schema, columns[n - 1]));
    }
}

/// What a column that is selected has in the item, or is read as without an attribute.
proof fn lemma_column_read_back(
    schema: Schema,
    columns: Seq<ColumnId>,
    sk_cols: Seq<ColumnId>,
    row: Seq<ValueView>,
    n: int,
    id: ColumnId,
)
    requires
        columns_distinct(schema, columns),
        columns.len() <= row.len(),
        forall|i: int|
            0 <= i < columns.len() && !is_joined(sk_cols, #[trigger] columns[i]) ==> comes_back(
                schema.column_view(columns[i]),
                row[i],
            ),
        sk_cols.no_duplicates(),
        separable(columns, sk_cols, row, n),
        can_select(schema, columns, id),
    ensures
        ({
            let item = item_of(schema, columns, sk_cols, row);
            let column = schema.column_view(id);
            let v = value_or_null(columns, row, id);
            if item.contains_key(column.name) {
                &&& has_type(column.ty, v)
                &&& is_storable(v)
                &&& item[column.name] == attribute_of(v)
                &&& is_written(column.ty, item[column.name])
            } else {
                record_of(item, seq![column], sk_cols)[0] == v
            }
        }),
{
    let item = item_of(schema, columns, sk_cols, row);
    let column = schema.column_view(id);
    let values = sort_values(columns, sk_cols, row);
    lemma_item_fits(schema, columns, sk_cols, row, n);
    if columns.contains(id) {
        let i = columns.index_of(id);
        assert(is_plain(schema, columns[i]));
        assert forall|j: int| i < j < columns.len() implies #[trigger] columns[j] != columns[i] by {}
        lemma_row_value(columns, row, i, columns.len());
        law_item_holds_row(schema, columns, sk_cols, row, i);
        if is_joined(sk_cols, id) {
            let k = sk_cols.index_of(id);
            assert(values[k] == row[i]);
            law_sort_key_read_back(item, values, sk_cols, n, column, k);
            if k >= n {
                assert(values[k] is Null);
            }
        } else if sk_cols.len() > 1 && !item.contains_key(column.name) {
            lemma_not_a_part(item, values, sk_cols, n, column);
        }
    } else {
        let more = columns.push(id);
        assert(more[columns.len() as int] == id);
        assert(is_plain(schema, more[columns.len() as int]));
        lemma_row_attributes(schema, more, sk_cols, row, columns.len(), columns.len() as int);
        lemma_attributes_of_first(schema, columns, more, sk_cols, row, columns.len());
        lemma_no_value(columns, row, id, columns.len());
        if sk_cols.len() > 1 {
            if sk_cols.contains(id) {
                assert(columns.contains(sk_cols[sk_cols.index_of(id)]));
            }
            lemma_not_a_part(item, values, sk_cols, n, column);
        }
    }
}

/// The attributes of the first columns do not depend on those behind them.
proof fn lemma_attributes_of_first(
    schema: Schema,
    columns: Seq<ColumnId>,
    more: Seq<ColumnId>,
    sk_cols: Seq<ColumnId>,
    row: Seq<ValueView>,
    n: nat,
)
    requires
        n <= columns.len() <= more.len(),
        forall|i: int| 0 <= i < n ==> #[trigger] more[i] == columns[i],
    ensures
        row_attributes(schema, more, sk_cols, row, n) == row_attributes(
            schema,
            columns,
            sk_cols,
            row,
            n,
        ),
    decreases n,
{
    if n > 0 {
        assert(more[n - 1] == columns[n - 1]);
        lemma_attributes_of_first(schema, columns, more, sk_cols, row, (n - 1) as nat);
    }
}

/// A column that is not among the row's has no value.
proof fn lemma_no_value(columns: Seq<ColumnId>, row: Seq<ValueView>, id: ColumnId, n: nat)
    requires
        n <= columns.len(),
        !columns.contains(id),
    ensures
        row_value(columns, row, id, n) is None,
    decreases n,
{
    if n > 0 {
        assert(columns.contains(columns[n - 1]));
        lemma_no_value(columns, row, id, (n - 1) as nat);
    }
}

/// A joined local key that was written has no more components than columns.
proof fn lemma_sort_key_fits(
    item: Map<Seq<char>, AttributeView>,
    values: Seq<ValueView>,
    sk_cols: Seq<ColumnId>,
    n: int,
)
    requires
        text_up_to(values, n),
        n > 0,
        values.len() == sk_cols.len(),
        item.contains_key("__sk"@),
        item["__sk"@] == AttributeView::S(sort_key_text(values)),
    ensures
        sort_key_fits(item, sk_cols),
{
    lemma_written_parts(item, values, n);
}

/// A column that is not joined has no component in the joined local key.
proof fn lemma_not_a_part(
    item: Map<Seq<char>, AttributeView>,
    values: Seq<ValueView>,
    sk_cols: Seq<ColumnId>,
    n: int,
    column: ColumnView,
)
    requires
        text_up_to(values, n),
        n > 0,
        values.len() == sk_cols.len(),
        item.contains_key("__sk"@),
        item["__sk"@] == AttributeView::S(sort_key_text(values)),
        !sk_cols.contains(column.id),
        !item.contains_key(column.name),
    ensures
        record_of(item, seq![column], sk_cols)[0] is Null,
{
    lemma_written_parts(item, values, n);
    let parts = sort_parts(item);
    assert forall|j: int| 0 <= j < parts.len() implies #[trigger] sk_cols[j] != column.id by {
        if sk_cols[j] == column.id {
            assert(sk_cols.contains(column.id));
        }
    }
    lemma_parts_by_column(parts, sk_cols, parts.len(), 0, column.id);
}

/// Whether the columns of the table's key are known to the schema as the table knows
/// them.
pub open spec fn key_known(schema: Schema, table: TableView) -> bool {
    let key = key_index(table).columns;
    forall|i: int|
        0 <= i < key.len() ==> {
            &&& table.column((#[trigger] key[i]).column).id == key[i].column
            &&& schema.column_view(key[i].column) == table.column(key[i].column)
        }
}

/// Whether the row has values for all key columns, and the key holds them.
pub open spec fn key_matches(
    table: TableView,
    columns: Seq<ColumnId>,
    row: Seq<ValueView>,
    key: ValueView,
) -> bool {
    let all = key_index(table).columns;
    forall|i: int|
        0 <= i < all.len() ==> row_value(
            columns,
            row,
            (#[trigger] all[i]).column,
            columns.len(),
        ) == Some(key_value(key, i))
}

/// Whether the column is not joined, and no other of the row's columns is stored under
/// its name.
pub open spec fn stands_alone(
    schema: Schema,
    columns: Seq<ColumnId>,
    sk_cols: Seq<ColumnId>,
    id: ColumnId,
) -> bool {
    &&& !is_joined(sk_cols, id)
    &&& forall|i: int|
        0 <= i < columns.len() && #[trigger] columns[i] != id && !is_joined(sk_cols, columns[i])
            ==> schema.column_view(columns[i]).name != schema.column_view(id).name
}

/// Whether each key column that is stored on its own has its name for itself.
pub open spec fn key_apart(schema: Schema, table: TableView, columns: Seq<ColumnId>) -> bool {
    let all = key_index(table).columns;
    let sk_cols = sort_columns(table);
    forall|i: int|
        0 <= i < all.len() && ((#[trigger] all[i]).scope == IndexScope::Partition || sk_cols.len()
            == 1) ==> stands_alone(schema, columns, sk_cols, all[i].column)
}

/// The item holds the row's value of a column that has its name for itself.
proof fn lemma_holds_value(
    schema: Schema,
    columns: Seq<ColumnId>,
    sk_cols: Seq<ColumnId>,
    row: Seq<ValueView>,
    id: ColumnId,
    v: ValueView,
    n: nat,
)
    requires
        stands_alone(schema, columns, sk_cols, id),
        n <= columns.len(),
        row_value(columns, row, id, n) == Some(v),
        !(v is Null),
    ensures
        ({
            let attributes = row_attributes(schema, columns, sk_cols, row, n);
            let name = schema.column_view(id).name;
            attributes.contains_key(name) && attributes[name] == attribute_of(v)
        }),
    decreases n,
{
    if n > 0 && columns[n - 1] != id {
        lemma_holds_value(schema, columns, sk_cols, row, id, v, (n - 1) as nat);
    }
}

/// Whether the key column at place `j` is the given one and part of the local key.
pub open spec fn is_local_at(table: TableView, j: int, id: ColumnId) -> bool {
    let column = key_index(table).columns[j];
    column.scope == IndexScope::Local && column.column == id
}

/// Whether the column is part of the local key, among the first `n` key columns.
pub open spec fn is_local_column(table: TableView, id: ColumnId, n: int) -> bool {
    exists|j: int| 0 <= j < n && #[trigger] is_local_at(table, j, id)
}

/// The local key of a row and that of the key that it matches.
proof fn lemma_local_entries(
    schema: Schema,
    table: TableView,
    columns: Seq<ColumnId>,
    row: Seq<ValueView>,
    key: ValueView,
    n: nat,
)
    requires
        key_known(schema, table),
        key_matches(table, columns, row, key),
        n <= key_index(table).columns.len(),
    ensures
        ({
            let all = key_index(table).columns;
            let local = local_columns(table, all.take(n as int));
            let entries = local_entries(table, key, n);
            &&& local.len() == entries.len()
            &&& forall|k: int|
                0 <= k < local.len() ==> {
                    &&& (#[trigger] entries[k]).0 == schema.column_view(local[k]).name
                    &&& row_value(columns, row, local[k], columns.len()) == Some(entries[k].1)
                }
            &&& forall|k: int|
                0 <= k < local.len() ==> is_local_column(table, #[trigger] local[k], n as int)
        }),
    decreases n,
{
    let all = key_index(table).columns;
    if n > 0 {
        lemma_local_entries(schema, table, columns, row, key, (n - 1) as nat);
        assert(all.take(n as int).drop_last() =~= all.take(n - 1));
        assert(all.take(n as int).last() == all[n - 1]);
        let before = local_columns(table, all.take(n - 1));
        let after = local_columns(table, all.take(n as int));
        let entries = local_entries(table, key, n);
        let rest = local_entries(table, key, (n - 1) as nat);
        assert(table.column(all[n - 1].column).id == all[n - 1].column);
        assert forall|k: int| 0 <= k < after.len() implies {
            &&& (#[trigger] entries[k]).0 == schema.column_view(after[k]).name
            &&& row_value(columns, row, after[k], columns.len()) == Some(entries[k].1)
        } by {
            if k < before.len() {
                assert(rest[k] == entries[k]);
                assert(before[k] == after[k]);
            }
        }
        assert forall|k: int| 0 <= k < after.len() implies is_local_column(
            table,
            #[trigger] after[k],
            n as int,
        ) by {
            if k < before.len() {
                assert(before[k] == after[k]);
                assert(is_local_column(table, before[k], n - 1));
                let j = choose|j: int| 0 <= j < n - 1 && #[trigger] is_local_at(table, j, before[k]);
                assert(is_local_at(table, j, after[k]));
            } else {
                assert(is_local_at(table, n - 1, after[k]));
            }
        }
    } else {
        assert(all.take(0) =~= Seq::<IndexColumn>::empty());
    }
}

proof fn lemma_partition_entries(
    schema: Schema,
    table: TableView,
    columns: Seq<ColumnId>,
    row: Seq<ValueView>,
    key: ValueView,
    n: nat,
    name: Seq<char>,
)
    requires
        key_known(schema, table),
        key_matches(table, columns, row, key),
        n <= key_index(table).columns.len(),
        partition_entries(table, key, n).contains_key(name),
    ensures
        exists|j: int|
            {
                &&& 0 <= j < n
                &&& (#[trigger] key_index(table).columns[j]).scope == IndexScope::Partition
                &&& schema.column_view(key_index(table).columns[j].column).name == name
                &&& partition_entries(table, key, n)[name] == attribute_of(key_value(key, j))
            },
    decreases n,
{
    let all = key_index(table).columns;
    if n > 0 {
        let column = all[n - 1];
        assert(schema.column_view(all[n - 1].column) == table.column(all[n - 1].column));
        if column.scope == IndexScope::Partition && table.column(column.column).name == name {
            assert(all[n - 1].scope == IndexScope::Partition);
        } else {
            lemma_partition_entries(schema, table, columns, row, key, (n - 1) as nat, name);
            let j = choose|j: int|
                {
                    &&& 0 <= j < n - 1
                    &&& (#[trigger] all[j]).scope == IndexScope::Partition
                    &&& schema.column_view(all[j].column).name == name
                    &&& partition_entries(table, key, (n - 1) as nat)[name] == attribute_of(
                        key_value(key, j),
                    )
                };
            assert(all[j].scope == IndexScope::Partition);
        }
    }
}

/// The attributes by which an item is looked up are those under which its row
/// was stored.
///
/// No other value of the row may be stored under the name of a key column.
pub proof fn law_key_finds_item(
    schema: Schema,
    table: TableView,
    columns: Seq<ColumnId>,
    row: Seq<ValueView>,
    key: ValueView,
    name: Seq<char>,
)
    requires
        key_known(schema, table),
        key_apart(schema, table, columns),
        key_matches(table, columns, row, key),
        key_fits(table, key),
        key_attributes(table, key).contains_key(name),
    ensures
        ({
            let item = item_of(schema, columns, sort_columns(table), row);
            item.contains_key(name) && item[name] == key_attributes(table, key)[name]
        }),
{
    let all = key_index(table).columns;
    let n = all.len();
    let sk_cols = sort_columns(table);
    let item = item_of(schema, columns, sk_cols, row);
    let local = local_entries(table, key, n);
    assert(all.take(n as int) =~= all);
    lemma_local_entries(schema, table, columns, row, key, n);
    if local.len() > 1 && name == "__sk"@ {
        assert(entry_values(local) =~= sort_values(columns, sk_cols, row));
    } else if local.len() == 1 && name == local[0].0 {
        assert(is_local_column(table, sk_cols[0], n as int));
        let j = choose|j: int| 0 <= j < n && #[trigger] is_local_at(table, j, sk_cols[0]);
        assert(stands_alone(schema, columns, sk_cols, all[j].column));
        lemma_holds_value(schema, columns, sk_cols, row, sk_cols[0], local[0].1, columns.len());
    } else {
        assert(partition_entries(table, key, n).contains_key(name));
        lemma_partition_entries(schema, table, columns, row, key, n, name);
        let j = choose|j: int|
            {
                &&& 0 <= j < n
                &&& (#[trigger] all[j]).scope == IndexScope::Partition
                &&& schema.column_view(all[j].column).name == name
                &&& partition_entries(table, key, n)[name] == attribute_of(key_value(key, j))
            };
        assert(stands_alone(schema, columns, sk_cols, all[j].column));
        assert(row_value(columns, row, all[j].column, columns.len()) == Some(key_value(key, j)));
        lemma_holds_value(
            schema,
            columns,
            sk_cols,
            row,
            all[j].column,
            key_value(key, j),
            columns.len(),
        );
    }
}

/// Whether the name is that of a partition column among the first `n` key columns.
pub open spec fn is_partition_name(table: TableView, name: Seq<char>, n: int) -> bool {
    exists|j: int|
        {
            &&& 0 <= j < n
            &&& (#[trigger] key_index(table).columns[j]).scope == IndexScope::Partition
            &&& table.column(key_index(table).columns[j].column).name == name
        }
}

/// Whether an attribute of that name is part of the table's key: that of a partition
/// column, that of the only column of the local key, or that of several joined.
pub open spec fn is_key_name(table: TableView, name: Seq<char>) -> bool {
    let local = scoped(key_index(table).columns, IndexScope::Local);
    ||| is_partition_name(table, name, key_index(table).columns.len() as int)
    ||| local.len() == 1 && name == table.column(local[0]).name
    ||| local.len() > 1 && name == "__sk"@
}

/// The key of an item has exactly the attributes that are part of the table's key.
pub proof fn law_key_names(table: TableView, key: ValueView, name: Seq<char>)
    ensures
        key_attributes(table, key).contains_key(name) <==> is_key_name(table, name),
{
    let all = key_index(table).columns;
    lemma_key_names(table, key, name, all.len());
    assert(all.take(all.len() as int) =~= all);
}

proof fn lemma_key_names(table: TableView, key: ValueView, name: Seq<char>, n: nat)
    requires
        n <= key_index(table).columns.len(),
    ensures
        partition_entries(table, key, n).contains_key(name) <==> is_partition_name(
            table,
            name,
            n as int,
        ),
        ({
            let local = scoped(key_index(table).columns.take(n as int), IndexScope::Local);
            let entries = local_entries(table, key, n);
            &&& entries.len() == local.len()
            &&& forall|k: int|
                0 <= k < local.len() ==> (#[trigger] entries[k]).0 == table.column(local[k]).name
        }),
    decreases n,
{
    let all = key_index(table).columns;
    if n > 0 {
        lemma_key_names(table, key, name, (n - 1) as nat);
        assert(all.take(n as int).drop_last() =~= all.take(n - 1));
        assert(all.take(n as int).last() == all[n - 1]);
        if partition_entries(table, key, n).contains_key(name) {
            if is_partition_name(table, name, n - 1) {
                let j = choose|j: int|
                    {
                        &&& 0 <= j < n - 1
                        &&& (#[trigger] key_index(table).columns[j]).scope == IndexScope::Partition
                        &&& table.column(key_index(table).columns[j].column).name == name
                    };
                assert(key_index(table).columns[j].scope == IndexScope::Partition);
            } else {
                assert(key_index(table).columns[n - 1].scope == IndexScope::Partition);
            }
        }
        let before = local_entries(table, key, (n - 1) as nat);
        let after = local_entries(table, key, n);
        let local = scoped(all.take(n as int), IndexScope::Local);
        assert forall|k: int| 0 <= k < local.len() implies (#[trigger] after[k]).0 == table.column(
            local[k],
        ).name by {
            if k < before.len() {
                assert(before[k] == after[k]);
            }
        }
    } else {
        assert(all.take(0) =~= Seq::<IndexColumn>::empty());
    }
}

} // verus!

//! What an insert stores, row by row.

use crate::attribute::{AttributeView, attribute_of};
use crate::db::{ColumnId, ColumnView, IndexView, Schema, TableView};
use crate::form_laws::{ended, law_each_component_is_ended, law_only_text_is_joined, text_only};
use crate::insert_plan::{
    InsertView, PutView, index_attributes, index_put, insertion, is_joined, item_of, items_of,
    row_attributes, row_value, sort_values, transaction, updated_indices, with_key,
};
use crate::keys::{sort_columns, strings};
use crate::stmt::ValueView;
use crate::storage_laws::{columns_distinct, is_plain};
use crate::text;
use vstd::prelude::*;

verus! {

/// The column of the schema that an identifier names.
pub open spec fn column_at(schema: Schema, id: ColumnId) -> ColumnView {
    schema.tables@[id.table.0 as int]@.columns[id.index as int]
}

/// Whether a place of a row is stored under the name of its own column: it is not null
/// and its column is not one of several that make up the local key.
pub open spec fn is_stored_alone(
    columns: Seq<ColumnId>,
    sk_cols: Seq<ColumnId>,
    row: Seq<ValueView>,
    i: int,
) -> bool {
    &&& 0 <= i < columns.len()
    &&& row[i] !is Null
    &&& sk_cols.len() <= 1 || forall|k: int|
        0 <= k < sk_cols.len() ==> #[trigger] sk_cols[k] != columns[i]
}

/// Whether an attribute is what the row has at place `i`.
pub open spec fn is_from_place(
    schema: Schema,
    columns: Seq<ColumnId>,
    sk_cols: Seq<ColumnId>,
    row: Seq<ValueView>,
    name: Seq<char>,
    i: int,
) -> bool {
    is_stored_alone(columns, sk_cols, row, i) && column_at(schema, columns[i]).name == name
}

proof fn lemma_row(
    schema: Schema,
    columns: Seq<ColumnId>,
    sk_cols: Seq<ColumnId>,
    row: Seq<ValueView>,
    n: nat,
)
    requires
        n <= columns.len(),
    ensures
        ({
            let all = row_attributes(schema, columns, sk_cols, row, n);
            &&& forall|i: int, name: Seq<char>|
                i < n && #[trigger] is_from_place(schema, columns, sk_cols, row, name, i)
                    ==> all.contains_key(name)
            &&& forall|name: Seq<char>| #[trigger]
                all.contains_key(name) ==> exists|i: int|
                    i < n && #[trigger] is_from_place(schema, columns, sk_cols, row, name, i)
                        && all[name] == attribute_of(row[i])
        }),
    decreases n,
{
    if n > 0 {
        let m = (n - 1) as nat;
        lemma_row(schema, columns, sk_cols, row, m);
        let before = row_attributes(schema, columns, sk_cols, row, m);
        let all = row_attributes(schema, columns, sk_cols, row, n);
        assert(is_stored_alone(columns, sk_cols, row, n - 1) <==> !(is_joined(
            sk_cols,
            columns[n - 1],
        ) || row[n - 1] is Null));
        assert forall|i: int, name: Seq<char>|
            i < n && #[trigger] is_from_place(
                schema,
                columns,
                sk_cols,
                row,
                name,
                i,
            ) implies all.contains_key(name) by {
            if i < m {
                assert(before.contains_key(name));
            }
        }
        assert forall|name: Seq<char>| #[trigger] all.contains_key(name) implies exists|i: int|
            i < n && #[trigger] is_from_place(schema, columns, sk_cols, row, name, i) && all[name]
                == attribute_of(row[i]) by {
            if is_from_place(schema, columns, sk_cols, row, name, n - 1) {
                assert(all[name] == attribute_of(row[n - 1]));
            } else {
                assert(before.contains_key(name));
                let i = choose|i: int|
                    i < m && #[trigger] is_from_place(schema, columns, sk_cols, row, name, i)
                        && before[name] == attribute_of(row[i]);
                assert(is_from_place(schema, columns, sk_cols, row, name, i) && all[name]
                    == attribute_of(row[i]));
            }
        }
    }
}

/// The item of a row has an attribute for each value that is not null and not part of a
/// joined local key, and no other but that key. The joined key is one text: the texts of
/// the local key's values, in the key's order, each with `#` behind it.
pub proof fn law_item_has_exactly_the_values(
    schema: Schema,
    columns: Seq<ColumnId>,
    sk_cols: Seq<ColumnId>,
    row: Seq<ValueView>,
)
    ensures
        ({
            let item = item_of(schema, columns, sk_cols, row);
            let texts = sort_values(columns, sk_cols, row).filter_map(text_only());
            &&& forall|i: int, name: Seq<char>| #[trigger]
                is_from_place(schema, columns, sk_cols, row, name, i) ==> item.contains_key(name)
            &&& forall|name: Seq<char>| #[trigger]
                item.contains_key(name) && (name != "__sk"@ || sk_cols.len() <= 1)
                    ==> exists|i: int| #[trigger]
                    is_from_place(schema, columns, sk_cols, row, name, i) && item[name]
                        == attribute_of(row[i])
            &&& sk_cols.len() > 1 ==> item.contains_key("__sk"@) && item["__sk"@]
                == AttributeView::S(
                if texts.len() == 0 {
                    seq!['#']
                } else {
                    texts.map_values(ended()).flatten()
                },
            )
        }),
{
    let item = item_of(schema, columns, sk_cols, row);
    let attributes = row_attributes(schema, columns, sk_cols, row, columns.len());
    lemma_row(schema, columns, sk_cols, row, columns.len());
    law_only_text_is_joined(sort_values(columns, sk_cols, row));
    law_each_component_is_ended(strings(sort_values(columns, sk_cols, row)));
    assert forall|i: int, name: Seq<char>| #[trigger]
        is_from_place(schema, columns, sk_cols, row, name, i) implies item.contains_key(name) by {
        assert(attributes.contains_key(name));
    }
    assert forall|name: Seq<char>| #[trigger]
        item.contains_key(name) && (name != "__sk"@ || sk_cols.len() <= 1) implies exists|i: int|
        #[trigger] is_from_place(schema, columns, sk_cols, row, name, i) && item[name]
            == attribute_of(row[i]) by {
        assert(attributes.contains_key(name));
        assert(attributes[name] == item[name]);
    }
}

/// The value that the local key takes from a row is that at the place of the column. With
/// several places for one column it is the last.
pub proof fn law_local_key_takes_row_values(
    columns: Seq<ColumnId>,
    sk_cols: Seq<ColumnId>,
    row: Seq<ValueView>,
    k: int,
    i: int,
)
    requires
        0 <= k < sk_cols.len(),
        0 <= i < columns.len(),
        columns[i] == sk_cols[k],
        forall|j: int| i < j < columns.len() ==> #[trigger] columns[j] != sk_cols[k],
    ensures
        sort_values(columns, sk_cols, row).len() == sk_cols.len(),
        sort_values(columns, sk_cols, row)[k] == row[i],
{
    lemma_row_value(columns, row, sk_cols[k], columns.len(), i);
}

proof fn lemma_row_value(
    columns: Seq<ColumnId>,
    row: Seq<ValueView>,
    id: ColumnId,
    n: nat,
    i: int,
)
    requires
        0 <= i < n <= columns.len(),
        columns[i] == id,
        forall|j: int| i < j < n ==> #[trigger] columns[j] != id,
    ensures
        row_value(columns, row, id, n) == Some(row[i]),
    decreases n,
{
    if i < n - 1 {
        assert(columns[n - 1] != id);
        lemma_row_value(columns, row, id, (n - 1) as nat, i);
    }
}

/// Whether the name is that of a column of the index.
pub open spec fn is_index_name(schema: Schema, index: IndexView, name: Seq<char>) -> bool {
    exists|j: int|
        0 <= j < index.columns.len() && column_at(
            schema,
            (#[trigger] index.columns[j]).column,
        ).name == name
}

/// Whether the name is that of a column of the primary key.
pub open spec fn is_key_name(table: TableView, name: Seq<char>) -> bool {
    exists|k: int|
        0 <= k < table.key_columns.len() && table.columns[(
        #[trigger] table.key_columns[k]).index as int].name == name
}

/// Whether an item has a value for each column of an index.
#[verifier::opaque]
pub open spec fn has_index_values(
    schema: Schema,
    index: IndexView,
    item: Map<Seq<char>, AttributeView>,
) -> bool {
    forall|j: int|
        0 <= j < index.columns.len() ==> item.contains_key(
            column_at(schema, (#[trigger] index.columns[j]).column).name,
        )
}

/// Whether a request stores the entry of an item in a unique index: the item's values for
/// the index and for the primary key, and nothing else, in the index's own table, and only
/// if no entry has the same value for the index's first column.
#[verifier::opaque]
pub open spec fn is_entry(
    schema: Schema,
    table: TableView,
    index: IndexView,
    item: Map<Seq<char>, AttributeView>,
    put: PutView,
) -> bool {
    &&& put.table == index.name
    &&& forall|name: Seq<char>| #[trigger]
        put.item.contains_key(name) <==> is_index_name(schema, index, name) || is_key_name(
            table,
            name,
        )
    &&& forall|name: Seq<char>| #[trigger]
        put.item.contains_key(name) ==> put.item[name] == item[name]
    &&& put.condition is Some
    &&& index.columns.len() > 0 ==> {
        let first = column_at(schema, index.columns[0].column);
        let placeholder = "#"@ + text::decimal(first.id.index as nat);
        let (expression, names) = put.condition->0;
        &&& expression == "attribute_not_exists("@ + placeholder + ")"@
        &&& names == map![placeholder => first.name]
    }
}

/// Whether a request stores the item in the table, on no condition.
pub open spec fn is_plain_put(
    table: TableView,
    item: Map<Seq<char>, AttributeView>,
    put: PutView,
) -> bool {
    put.table == table.name && put.item == item && put.condition is None
}

proof fn lemma_index_attributes(
    schema: Schema,
    index: IndexView,
    item: Map<Seq<char>, AttributeView>,
    n: nat,
)
    requires
        n <= index.columns.len(),
    ensures
        match index_attributes(schema, index, item, n) {
            Some(all) => {
                &&& forall|j: int|
                    0 <= j < n ==> item.contains_key(
                        column_at(schema, (#[trigger] index.columns[j]).column).name,
                    )
                &&& forall|name: Seq<char>| #[trigger]
                    all.contains_key(name) <==> exists|j: int|
                        0 <= j < n && column_at(
                            schema,
                            (#[trigger] index.columns[j]).column,
                        ).name == name
                &&& forall|name: Seq<char>| #[trigger]
                    all.contains_key(name) ==> all[name] == item[name]
            },
            None => exists|j: int|
                0 <= j < n && !item.contains_key(
                    column_at(schema, (#[trigger] index.columns[j]).column).name,
                ),
        },
    decreases n,
{
    if n > 0 {
        let m = (n - 1) as nat;
        lemma_index_attributes(schema, index, item, m);
        let last = column_at(schema, index.columns[n - 1].column).name;
        match index_attributes(schema, index, item, m) {
            Some(rest) => {
                if item.contains_key(last) {
                    let all = rest.insert(last, item[last]);
                    assert(index_attributes(schema, index, item, n) == Some(all));
                    assert forall|name: Seq<char>| #[trigger]
                        all.contains_key(name) implies exists|j: int|
                        0 <= j < n && column_at(
                            schema,
                            (#[trigger] index.columns[j]).column,
                        ).name == name by {
                        if name == last {
                            assert(column_at(schema, index.columns[n - 1].column).name == name);
                        } else {
                            assert(rest.contains_key(name));
                        }
                    }
                    assert forall|name: Seq<char>|
                        (exists|j: int|
                            0 <= j < n && column_at(
                                schema,
                                (#[trigger] index.columns[j]).column,
                            ).name == name) implies #[trigger] all.contains_key(name) by {
                        let j = choose|j: int|
                            0 <= j < n && column_at(
                                schema,
                                (#[trigger] index.columns[j]).column,
                            ).name == name;
                        if j < m {
                            assert(rest.contains_key(name));
                        }
                    }
                }
            },
            None => {},
        }
    }
}

proof fn lemma_with_key(
    table: TableView,
    attributes: Map<Seq<char>, AttributeView>,
    item: Map<Seq<char>, AttributeView>,
    n: nat,
)
    requires
        n <= table.key_columns.len(),
        forall|name: Seq<char>| #[trigger]
            attributes.contains_key(name) ==> attributes[name] == item[name],
    ensures
        ({
            let all = with_key(table, attributes, item, n);
            &&& forall|name: Seq<char>| #[trigger]
                all.contains_key(name) <==> attributes.contains_key(name) || exists|k: int|
                    0 <= k < n && table.columns[(
                    #[trigger] table.key_columns[k]).index as int].name == name
            &&& forall|name: Seq<char>| #[trigger]
                all.contains_key(name) ==> all[name] == item[name]
        }),
    decreases n,
{
    if n > 0 {
        let m = (n - 1) as nat;
        lemma_with_key(table, attributes, item, m);
        let rest = with_key(table, attributes, item, m);
        let all = with_key(table, attributes, item, n);
        let last = table.columns[table.key_columns[n - 1].index as int].name;
        assert(all == rest.insert(last, item[last]));
        assert forall|name: Seq<char>| #[trigger] all.contains_key(name) implies (
        attributes.contains_key(name) || exists|k: int|
            0 <= k < n && table.columns[(
            #[trigger] table.key_columns[k]).index as int].name == name) by {
            if name == last {
                assert(table.columns[table.key_columns[n - 1].index as int].name == name);
            } else {
                assert(rest.contains_key(name));
            }
        }
        assert forall|name: Seq<char>|
            (attributes.contains_key(name) || exists|k: int|
                0 <= k < n && table.columns[(
                #[trigger] table.key_columns[k]).index as int].name == name) implies #[trigger] all.contains_key(
            name,
        ) by {
            if !attributes.contains_key(name) {
                let k = choose|k: int|
                    0 <= k < n && table.columns[(
                    #[trigger] table.key_columns[k]).index as int].name == name;
                if k < m {
                    assert(rest.contains_key(name));
                }
            } else {
                assert(rest.contains_key(name));
            }
        }
    }
}

/// An item has an entry in a unique index if and only if it has all the index's values.
proof fn lemma_index_put(
    schema: Schema,
    table: TableView,
    index: IndexView,
    item: Map<Seq<char>, AttributeView>,
)
    ensures
        match index_put(schema, table, index, item) {
            Some(put) => has_index_values(schema, index, item) && is_entry(
                schema,
                table,
                index,
                item,
                put,
            ),
            None => !has_index_values(schema, index, item),
        },
{
    reveal(is_entry);
    reveal(has_index_values);
    lemma_index_attributes(schema, index, item, index.columns.len());
    match index_attributes(schema, index, item, index.columns.len()) {
        Some(attributes) => {
            lemma_with_key(table, attributes, item, table.key_columns.len());
            if index.columns.len() > 0 {
                let first = column_at(schema, index.columns[0].column);
                let placeholder = "#"@ + text::decimal(first.id.index as nat);
                assert(Map::<Seq<char>, Seq<char>>::empty().insert(placeholder, first.name)
                    =~= map![placeholder => first.name]);
            }
            let put = index_put(schema, table, index, item)->0;
            assert forall|name: Seq<char>| #[trigger]
                put.item.contains_key(name) <==> is_index_name(schema, index, name)
                    || is_key_name(table, name) by {
                assert(attributes.contains_key(name) <==> is_index_name(schema, index, name));
            }
        },
        None => {},
    }
}

/// Keeps an item if it has a value for each column of the index.
pub open spec fn with_index_values(schema: Schema, index: IndexView) -> spec_fn(
    Map<Seq<char>, AttributeView>,
) -> Option<Map<Seq<char>, AttributeView>> {
    |item: Map<Seq<char>, AttributeView>|
        if has_index_values(schema, index, item) {
            Some(item)
        } else {
            None
        }
}

/// Whether the requests store item `i`: one at place `p` puts it into the table, and the
/// one before that puts its entry into the index, if it has one.
pub open spec fn stores_item(
    schema: Schema,
    table: TableView,
    index: IndexView,
    items: Seq<Map<Seq<char>, AttributeView>>,
    puts: Seq<PutView>,
    i: int,
    p: int,
) -> bool {
    &&& 0 <= p < puts.len()
    &&& is_plain_put(table, items[i], puts[p])
    &&& has_index_values(schema, index, items[i]) ==> p > 0 && is_entry(
        schema,
        table,
        index,
        items[i],
        puts[p - 1],
    )
}

/// Whether the requests store item `i`, with its entry in the index if it has one.
pub open spec fn is_stored(
    schema: Schema,
    table: TableView,
    index: IndexView,
    items: Seq<Map<Seq<char>, AttributeView>>,
    puts: Seq<PutView>,
    i: int,
) -> bool {
    exists|p: int| #[trigger] stores_item(schema, table, index, items, puts, i, p)
}

/// Whether the request is that for item `i` or for its entry in the index.
pub open spec fn is_for_item(
    schema: Schema,
    table: TableView,
    index: IndexView,
    items: Seq<Map<Seq<char>, AttributeView>>,
    put: PutView,
    i: int,
) -> bool {
    &&& 0 <= i < items.len()
    &&& is_plain_put(table, items[i], put) || (has_index_values(schema, index, items[i])
        && is_entry(schema, table, index, items[i], put))
}

/// Whether the request is for one of the items.
pub open spec fn is_for_some_item(
    schema: Schema,
    table: TableView,
    index: IndexView,
    items: Seq<Map<Seq<char>, AttributeView>>,
    put: PutView,
) -> bool {
    exists|i: int| #[trigger] is_for_item(schema, table, index, items, put, i)
}

/// A transaction stores every item in the table and, right before, the entry of every item
/// that has all the values of the index. It holds no other request.
pub proof fn law_transaction_stores_every_item(
    schema: Schema,
    table: TableView,
    index: IndexView,
    items: Seq<Map<Seq<char>, AttributeView>>,
)
    ensures
        ({
            let puts = transaction(schema, table, index, items);
            &&& puts.len() == items.len() + items.filter_map(
                with_index_values(schema, index),
            ).len()
            &&& forall|i: int|
                0 <= i < items.len() ==> #[trigger] is_stored(
                    schema,
                    table,
                    index,
                    items,
                    puts,
                    i,
                )
            &&& forall|p: int|
                0 <= p < puts.len() ==> is_for_some_item(
                    schema,
                    table,
                    index,
                    items,
                    #[trigger] puts[p],
                )
        }),
    decreases items.len(),
{
    if items.len() > 0 {
        let rest = items.drop_last();
        let n = items.len() - 1;
        law_transaction_stores_every_item(schema, table, index, rest);
        lemma_index_put(schema, table, index, items[n]);
        let before = transaction(schema, table, index, rest);
        let puts = transaction(schema, table, index, items);
        assert(before.is_prefix_of(puts));
        assert forall|i: int| 0 <= i < items.len() implies #[trigger] is_stored(
            schema,
            table,
            index,
            items,
            puts,
            i,
        ) by {
            if i < n {
                assert(is_stored(schema, table, index, rest, before, i));
                let p = choose|p: int| #[trigger]
                    stores_item(schema, table, index, rest, before, i, p);
                assert(puts[p] == before[p]);
                if p > 0 {
                    assert(puts[p - 1] == before[p - 1]);
                }
                assert(stores_item(schema, table, index, items, puts, i, p));
            } else {
                assert(stores_item(schema, table, index, items, puts, i, puts.len() - 1));
            }
        }
        assert forall|p: int| 0 <= p < puts.len() implies is_for_some_item(
            schema,
            table,
            index,
            items,
            #[trigger] puts[p],
        ) by {
            if p < before.len() {
                assert(puts[p] == before[p]);
                let i = choose|i: int| #[trigger]
                    is_for_item(schema, table, index, rest, before[p], i);
                assert(is_for_item(schema, table, index, items, puts[p], i));
            } else {
                assert(is_for_item(schema, table, index, items, puts[p], n));
            }
        }
    }
}

/// Keeps an index if it is unique, not over the primary key, and each of its columns is
/// among the given ones.
pub open spec fn updated_by(schema: Schema, columns: Seq<ColumnId>) -> spec_fn(
    IndexView,
) -> Option<IndexView> {
    |index: IndexView|
        if !index.primary_key && index.unique && (forall|j: int|
            0 <= j < index.columns.len() ==> columns.contains(
                column_at(schema, (#[trigger] index.columns[j]).column).id,
            )) {
            Some(index)
        } else {
            None
        }
}

pub proof fn lemma_updated(schema: Schema, columns: Seq<ColumnId>, indices: Seq<IndexView>)
    ensures
        updated_indices(schema, columns, indices) == indices.filter_map(
            updated_by(schema, columns),
        ),
    decreases indices.len(),
{
    if indices.len() > 0 {
        lemma_updated(schema, columns, indices.drop_last());
        assert(crate::insert_plan::is_covered(schema, columns, indices.last()) <==> forall|
            j: int,
        |
            0 <= j < indices.last().columns.len() ==> columns.contains(
                column_at(schema, (#[trigger] indices.last().columns[j]).column).id,
            ));
    }
    assert(updated_indices(schema, columns, indices) =~= indices.filter_map(
        updated_by(schema, columns),
    ));
}

/// The items that a request stores in the table itself.
pub open spec fn table_items(view: InsertView) -> Seq<Map<Seq<char>, AttributeView>> {
    match view {
        InsertView::PutItem(_, item) => seq![item],
        InsertView::BatchWriteItem(_, items) => items,
        InsertView::TransactWriteItems(_) => Seq::empty(),
    }
}

/// Whether one of the requests puts the item into the table, and one its entry into the
/// index if it has all the values for it.
pub open spec fn row_is_stored(
    schema: Schema,
    table: TableView,
    index: IndexView,
    item: Map<Seq<char>, AttributeView>,
    puts: Seq<PutView>,
) -> bool {
    &&& exists|p: int| 0 <= p < puts.len() && is_plain_put(table, item, #[trigger] puts[p])
    &&& has_index_values(schema, index, item) ==> exists|p: int|
        0 <= p < puts.len() && is_entry(schema, table, index, item, #[trigger] puts[p])
}

/// Whether the request is that for row `i` or for its entry in the index.
pub open spec fn is_for_row(
    schema: Schema,
    table: TableView,
    index: IndexView,
    columns: Seq<ColumnId>,
    rows: Seq<Seq<ValueView>>,
    put: PutView,
    i: int,
) -> bool {
    let item = item_of(schema, columns, sort_columns(table), rows[i]);
    &&& 0 <= i < rows.len()
    &&& is_plain_put(table, item, put) || (has_index_values(schema, index, item) && is_entry(
        schema,
        table,
        index,
        item,
        put,
    ))
}

/// Whether the request is for one of the rows.
pub open spec fn is_for_some_row(
    schema: Schema,
    table: TableView,
    index: IndexView,
    columns: Seq<ColumnId>,
    rows: Seq<Seq<ValueView>>,
    put: PutView,
) -> bool {
    exists|i: int| #[trigger] is_for_row(schema, table, index, columns, rows, put, i)
}

/// An insert stores the item of every row, in the rows' order.
///
/// If it updates no unique index, a single row is put on its own and any other number of
/// rows in a batch. If it does, all is put in one transaction, with an entry in the index
/// for every row that has a value for each of its columns.
pub proof fn law_insert_stores_every_row(
    schema: Schema,
    table: TableView,
    columns: Seq<ColumnId>,
    rows: Seq<Seq<ValueView>>,
)
    ensures
        ({
            let updated = table.indices.filter_map(updated_by(schema, columns));
            let view = insertion(schema, table, columns, rows);
            let sk_cols = sort_columns(table);
            if updated.len() == 0 {
                &&& match view {
                    InsertView::PutItem(name, _) => rows.len() == 1 && name == table.name,
                    InsertView::BatchWriteItem(name, _) => rows.len() != 1 && name == table.name,
                    InsertView::TransactWriteItems(_) => false,
                }
                &&& table_items(view).len() == rows.len()
                &&& forall|i: int|
                    0 <= i < rows.len() ==> (#[trigger] table_items(view)[i]) == item_of(
                        schema,
                        columns,
                        sk_cols,
                        rows[i],
                    )
            } else {
                &&& view is TransactWriteItems
                &&& forall|i: int|
                    0 <= i < rows.len() ==> #[trigger] row_is_stored(
                        schema,
                        table,
                        updated[0],
                        item_of(schema, columns, sk_cols, rows[i]),
                        view->TransactWriteItems_0,
                    )
                &&& forall|p: int|
                    0 <= p < view->TransactWriteItems_0.len() ==> is_for_some_row(
                        schema,
                        table,
                        updated[0],
                        columns,
                        rows,
                        #[trigger] view->TransactWriteItems_0[p],
                    )
            }
        }),
{
    lemma_updated(schema, columns, table.indices);
    let updated = table.indices.filter_map(updated_by(schema, columns));
    let view = insertion(schema, table, columns, rows);
    let sk_cols = sort_columns(table);
    let items = items_of(schema, columns, sk_cols, rows);
    if updated.len() > 0 {
        let index = updated[0];
        law_transaction_stores_every_item(schema, table, index, items);
        let puts = transaction(schema, table, index, items);
        assert forall|i: int| 0 <= i < rows.len() implies #[trigger] row_is_stored(
            schema,
            table,
            index,
            item_of(schema, columns, sk_cols, rows[i]),
            puts,
        ) by {
            assert(items[i] == item_of(schema, columns, sk_cols, rows[i]));
            assert(is_stored(schema, table, index, items, puts, i));
            let p = choose|p: int| #[trigger]
                stores_item(schema, table, index, items, puts, i, p);
            assert(is_plain_put(table, items[i], puts[p]));
            if has_index_values(schema, index, items[i]) {
                assert(is_entry(schema, table, index, items[i], puts[p - 1]));
            }
        }
        assert forall|p: int| 0 <= p < puts.len() implies is_for_some_row(
            schema,
            table,
            index,
            columns,
            rows,
            #[trigger] puts[p],
        ) by {
            assert(is_for_some_item(schema, table, index, items, puts[p]));
            let i = choose|i: int| #[trigger]
                is_for_item(schema, table, index, items, puts[p], i);
            assert(items[i] == item_of(schema, columns, sk_cols, rows[i]));
            assert(is_for_row(schema, table, index, columns, rows, puts[p], i));
        }
    }
}

/// Whether a request stores, in the table of a unique index, the values that a row has for
/// the index and for the primary key, on the condition that goes with the index.
pub open spec fn is_entry_of_row(
    schema: Schema,
    table: TableView,
    index: IndexView,
    columns: Seq<ColumnId>,
    row: Seq<ValueView>,
    put: PutView,
) -> bool {
    let item = item_of(schema, columns, sort_columns(table), row);
    &&& is_entry(schema, table, index, item, put)
    &&& put.table == index.name
    &&& forall|i: int, name: Seq<char>| #[trigger]
        is_from_place(schema, columns, sort_columns(table), row, name, i) && (is_index_name(
            schema,
            index,
            name,
        ) || is_key_name(table, name)) ==> put.item.contains_key(name) && put.item[name]
            == attribute_of(row[i])
}

/// For every row of an insert that has a value for each column of the unique index that is
/// updated, the transaction holds a request that stores these values, and the row's values
/// for the primary key, in the index's table, if there is no item with the first of them.
pub proof fn law_rows_with_index_values_get_entries(
    schema: Schema,
    table: TableView,
    columns: Seq<ColumnId>,
    rows: Seq<Seq<ValueView>>,
    r: int,
)
    requires
        columns_distinct(schema, columns),
        table.indices.filter_map(updated_by(schema, columns)).len() > 0,
        0 <= r < rows.len(),
        ({
            let index = table.indices.filter_map(updated_by(schema, columns))[0];
            forall|j: int|
                0 <= j < index.columns.len() ==> exists|i: int| #[trigger]
                    is_from_place(
                        schema,
                        columns,
                        sort_columns(table),
                        rows[r],
                        column_at(schema, (#[trigger] index.columns[j]).column).name,
                        i,
                    )
        }),
    ensures
        ({
            let index = table.indices.filter_map(updated_by(schema, columns))[0];
            let view = insertion(schema, table, columns, rows);
            &&& view is TransactWriteItems
            &&& exists|p: int|
                0 <= p < view->TransactWriteItems_0.len() && is_entry_of_row(
                    schema,
                    table,
                    index,
                    columns,
                    rows[r],
                    #[trigger] view->TransactWriteItems_0[p],
                )
        }),
{
    let sk_cols = sort_columns(table);
    let index = table.indices.filter_map(updated_by(schema, columns))[0];
    let row = rows[r];
    let item = item_of(schema, columns, sk_cols, row);
    law_insert_stores_every_row(schema, table, columns, rows);
    law_item_has_exactly_the_values(schema, columns, sk_cols, row);
    let puts = insertion(schema, table, columns, rows)->TransactWriteItems_0;
    assert(has_index_values(schema, index, item)) by {
        reveal(has_index_values);
        assert forall|j: int| 0 <= j < index.columns.len() implies item.contains_key(
            column_at(schema, (#[trigger] index.columns[j]).column).name,
        ) by {
            let name = column_at(schema, index.columns[j].column).name;
            let i = choose|i: int| #[trigger]
                is_from_place(schema, columns, sk_cols, row, name, i);
            assert(is_from_place(schema, columns, sk_cols, row, name, i));
        }
    }
    assert(row_is_stored(schema, table, index, item, puts));
    let p = choose|p: int|
        0 <= p < puts.len() && is_entry(schema, table, index, item, #[trigger] puts[p]);
    let put = puts[p];
    reveal(is_entry);
    assert forall|i: int, name: Seq<char>| #[trigger]
        is_from_place(schema, columns, sk_cols, row, name, i) && (is_index_name(
            schema,
            index,
            name,
        ) || is_key_name(table, name)) implies put.item.contains_key(name) && put.item[name]
        == attribute_of(row[i]) by {
        assert(item.contains_key(name));
        assert(is_plain(schema, columns[i]));
        assert(name != "__sk"@);
        let k = choose|k: int| #[trigger]
            is_from_place(schema, columns, sk_cols, row, name, k) && item[name] == attribute_of(
                row[k],
            );
        assert(is_from_place(schema, columns, sk_cols, row, name, k));
        if k < i {
            assert(columns[k] != columns[i]);
        } else if i < k {
            assert(columns[i] != columns[k]);
        }
        assert(i == k);
    }
    assert(is_entry_of_row(schema, table, index, columns, row, puts[p]));
}

} // verus!

//! What keys are made of and what is read from items.

use crate::attribute::{AttributeView, attribute_of, value_of};
use crate::db::{ColumnId, ColumnView, IndexScope, Schema, TableView};
use crate::delimited::{delimiter_free, law_composite_key_round_trip};
use crate::form_laws::{ended, law_each_component_is_ended, law_only_text_is_joined, text_only};
use crate::keys::{
    entry_values, key_attributes, key_value, local_entries, partition_entries, strings,
};
use crate::query_plan::selected;
use crate::records::{lemma_parts_by_column, record_of, sort_parts};
use crate::stmt::ValueView;
use vstd::prelude::*;

verus! {

/// The components that an item has for the local key: those that its joined key, if it has
/// one, was made of, if none of them holds the delimiter.
pub proof fn law_components_are_taken_apart(
    item: Map<Seq<char>, AttributeView>,
    texts: Seq<Seq<char>>,
)
    requires
        forall|i: int| 0 <= i < texts.len() ==> !(#[trigger] texts[i]).contains('#'),
    ensures
        !item.contains_key("__sk"@) ==> sort_parts(item).len() == 0,
        item.contains_key("__sk"@) && texts.len() > 0 && item["__sk"@] == AttributeView::S(
            texts.map_values(ended()).flatten(),
        ) ==> sort_parts(item) == texts,
{
    law_each_component_is_ended(texts);
    assert forall|i: int| 0 <= i < texts.len() implies delimiter_free(#[trigger] texts[i]) by {}
    if texts.len() > 0 {
        law_composite_key_round_trip(texts);
    }
}

/// Whether place `k` is the last of the components that is for the given column.
pub open spec fn is_last_part(parts: Seq<Seq<char>>, sk_cols: Seq<ColumnId>, id: ColumnId, k: int) -> bool {
    &&& 0 <= k < parts.len()
    &&& sk_cols[k] == id
    &&& forall|j: int| k < j < parts.len() ==> #[trigger] sk_cols[j] != id
}

/// A record has one value for each column that was asked for, in their order. It is that of
/// the item's attribute of the column's name. Without one, it is the component of the joined
/// local key at the column's place in that key, and without that it is null.
pub proof fn law_record_has_value_of_each_column(
    item: Map<Seq<char>, AttributeView>,
    columns: Seq<ColumnView>,
    sk_cols: Seq<ColumnId>,
)
    ensures
        ({
            let record = record_of(item, columns, sk_cols);
            let parts = sort_parts(item);
            &&& record.len() == columns.len()
            &&& forall|i: int|
                0 <= i < columns.len() && item.contains_key((#[trigger] columns[i]).name)
                    ==> record[i] == value_of(columns[i].ty, item[columns[i].name])->0
            &&& forall|i: int, k: int|
                0 <= i < columns.len() && !item.contains_key(columns[i].name)
                    && #[trigger] is_last_part(parts, sk_cols, columns[i].id, k) ==> record[i]
                    == ValueView::String(parts[k])
            &&& forall|i: int|
                0 <= i < columns.len() && !item.contains_key((#[trigger] columns[i]).name) && (
                forall|k: int| 0 <= k < parts.len() ==> #[trigger] sk_cols[k] != columns[i].id)
                    ==> record[i] is Null
        }),
{
    let record = record_of(item, columns, sk_cols);
    let parts = sort_parts(item);
    assert forall|i: int, k: int|
        0 <= i < columns.len() && !item.contains_key(columns[i].name) && #[trigger] is_last_part(
            parts,
            sk_cols,
            columns[i].id,
            k,
        ) implies record[i] == ValueView::String(parts[k]) by {
        lemma_parts_by_column(parts, sk_cols, parts.len(), k + 1, columns[i].id);
    }
    assert forall|i: int|
        0 <= i < columns.len() && !item.contains_key((#[trigger] columns[i]).name) && (forall|
            k: int,
        |
            0 <= k < parts.len() ==> #[trigger] sk_cols[k] != columns[i].id) implies record[i] is Null by {
        lemma_parts_by_column(parts, sk_cols, parts.len(), 0, columns[i].id);
    }
}

/// The columns that are read are those selected, each once for each time it is selected,
/// in their order.
pub proof fn law_selected_columns_are_read(schema: Schema, select: Seq<ColumnId>)
    ensures
        selected(schema, select).len() == select.len(),
        forall|i: int|
            0 <= i < select.len() ==> (#[trigger] selected(schema, select)[i])
                == schema.tables@[select[i].table.0 as int]@.columns[select[i].index as int],
{
}

/// The value that a key has for the key column at place `i`: a record has one for each, and
/// any other value is itself the key.
pub open spec fn value_at_place(key: ValueView, i: int) -> ValueView {
    match key {
        ValueView::Record(values) => values[i],
        _ => key,
    }
}

/// Keeps a place of the key's index if it is of the local key, with its column's name and
/// the key's value there.
pub open spec fn local_place(table: TableView, key: ValueView) -> spec_fn(int) -> Option<
    (Seq<char>, ValueView),
> {
    |i: int|
        {
            let column = table.indices[table.key_index.index as int].columns[i];
            if column.scope == IndexScope::Local {
                Some((table.columns[column.column.index as int].name, value_at_place(key, i)))
            } else {
                None
            }
        }
}

/// The first `n` places.
pub open spec fn places(n: nat) -> Seq<int> {
    Seq::new(n, |i: int| i)
}

proof fn lemma_local_places(table: TableView, key: ValueView, n: nat)
    ensures
        local_entries(table, key, n) == places(n).filter_map(local_place(table, key)),
    decreases n,
{
    if n > 0 {
        lemma_local_places(table, key, (n - 1) as nat);
        assert(places(n).drop_last() =~= places((n - 1) as nat));
        assert(places(n).last() == n - 1);
    }
    assert(local_entries(table, key, n) =~= places(n).filter_map(local_place(table, key)));
}

/// Whether the key column at place `i` picks the partition and has the given name.
pub open spec fn is_partition_place(table: TableView, name: Seq<char>, i: int) -> bool {
    let columns = table.indices[table.key_index.index as int].columns;
    &&& 0 <= i < columns.len()
    &&& columns[i].scope == IndexScope::Partition
    &&& table.columns[columns[i].column.index as int].name == name
}

proof fn lemma_partition(table: TableView, key: ValueView, n: nat)
    requires
        n <= table.indices[table.key_index.index as int].columns.len(),
    ensures
        ({
            let all = partition_entries(table, key, n);
            &&& forall|i: int, name: Seq<char>|
                i < n && #[trigger] is_partition_place(table, name, i) ==> all.contains_key(name)
            &&& forall|name: Seq<char>| #[trigger]
                all.contains_key(name) ==> exists|i: int|
                    i < n && #[trigger] is_partition_place(table, name, i) && all[name]
                        == attribute_of(value_at_place(key, i))
        }),
    decreases n,
{
    if n > 0 {
        let m = (n - 1) as nat;
        lemma_partition(table, key, m);
        let before = partition_entries(table, key, m);
        let all = partition_entries(table, key, n);
        assert forall|i: int, name: Seq<char>|
            i < n && #[trigger] is_partition_place(table, name, i) implies all.contains_key(
            name,
        ) by {
            if i < m {
                assert(before.contains_key(name));
            }
        }
        assert forall|name: Seq<char>| #[trigger] all.contains_key(name) implies exists|i: int|
            i < n && #[trigger] is_partition_place(table, name, i) && all[name] == attribute_of(
                value_at_place(key, i),
            ) by {
            if is_partition_place(table, name, n - 1) {
                assert(key_value(key, n - 1) == value_at_place(key, n - 1));
            } else {
                assert(before.contains_key(name) && before[name] == all[name]);
            }
        }
    }
}

/// The attributes of a key are those of the columns that pick the partition, with the key's
/// values for them, and one for the local key, if there is one: the column's own if it is a
/// single one, and else the texts of all the local values in their order, each with `#`
/// behind it.
pub proof fn law_key_has_value_of_each_column(table: TableView, key: ValueView)
    ensures
        ({
            let columns = table.indices[table.key_index.index as int].columns;
            let local = places(columns.len()).filter_map(local_place(table, key));
            let texts = local.map_values(|e: (Seq<char>, ValueView)| e.1).filter_map(
                text_only(),
            );
            let all = key_attributes(table, key);
            let range = if local.len() > 1 {
                Some(("__sk"@, AttributeView::S(
                    if texts.len() == 0 {
                        seq!['#']
                    } else {
                        texts.map_values(ended()).flatten()
                    },
                )))
            } else if local.len() == 1 {
                Some((local[0].0, attribute_of(local[0].1)))
            } else {
                None
            };
            &&& forall|i: int, name: Seq<char>| #[trigger]
                is_partition_place(table, name, i) ==> all.contains_key(name)
            &&& range matches Some(r) ==> all.contains_key(r.0) && all[r.0] == r.1
            &&& forall|name: Seq<char>| #[trigger]
                all.contains_key(name) && !(range matches Some(r) && r.0 == name)
                    ==> exists|i: int| #[trigger]
                    is_partition_place(table, name, i) && all[name] == attribute_of(
                        value_at_place(key, i),
                    )
        }),
{
    let columns = table.indices[table.key_index.index as int].columns;
    let n = columns.len();
    lemma_local_places(table, key, n);
    lemma_partition(table, key, n);
    let local = local_entries(table, key, n);
    let partition = partition_entries(table, key, n);
    let all = key_attributes(table, key);
    let values = local.map_values(|e: (Seq<char>, ValueView)| e.1);
    assert(entry_values(local) =~= values);
    law_only_text_is_joined(values);
    law_each_component_is_ended(strings(values));
    assert forall|i: int, name: Seq<char>| #[trigger]
        is_partition_place(table, name, i) implies all.contains_key(name) by {
        assert(partition.contains_key(name));
    }
    assert forall|name: Seq<char>|
        all.contains_key(name) && !(local.len() > 1 && name == "__sk"@) && !(local.len() == 1
            && name == local[0].0) implies exists|i: int| #[trigger]
        is_partition_place(table, name, i) && all[name] == attribute_of(
            value_at_place(key, i),
        ) by {
        assert(partition.contains_key(name) && partition[name] == all[name]);
    }
}

} // verus!

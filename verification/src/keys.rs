//! Keys of stored items, and the records that are read from them.
//!
//! A table has one attribute that picks the partition and at most one that
//! orders items there. Where the local key is made of several columns, their
//! values are joined into one attribute.

use crate::attribute::{AttributeValue, AttributeView, attribute_of, ddb_val, is_storable};
use crate::db::{ColumnId, IndexColumn, IndexScope, IndexView, Table, TableView};
use crate::delimited::{self, composite_key, texts};
use crate::stmt::{Value, ValueView};
use crate::string_map::StringMap;
use vstd::prelude::*;

verus! {

/// The role of an attribute in a key.
#[derive(Clone, Copy, PartialEq, Eq, Structural, Debug)]
pub enum KeyType {
    /// Picks the partition
    Hash,
    /// Orders items within a partition
    Range,
}

/// One attribute of a key.
#[derive(Debug, PartialEq, Eq)]
pub struct KeySchemaElement {
    pub attribute_name: String,
    pub key_type: KeyType,
}

/// What attributes by name say.
pub open spec fn attribute_views(item: Map<Seq<char>, AttributeValue>) -> Map<
    Seq<char>,
    AttributeView,
> {
    item.map_values(|a: AttributeValue| a@)
}

/// The index over the primary key.
pub open spec fn key_index(table: TableView) -> IndexView {
    table.indices[table.key_index.index as int]
}

/// Whether there is an index over the primary key.
pub open spec fn has_key_index(table: TableView) -> bool {
    table.key_index.index < table.indices.len()
}

/// Whether there is an index over the primary key, and the columns of the local key
/// are the table's.
pub open spec fn local_known(table: TableView) -> bool {
    &&& has_key_index(table)
    &&& forall|i: int|
        0 <= i < key_index(table).columns.len() && (#[trigger] key_index(table).columns[i]).scope
            == IndexScope::Local ==> table.has_column(key_index(table).columns[i].column)
}

/// Whether there is an index over the primary key, and all its columns are the table's.
pub open spec fn is_keyed(table: TableView) -> bool {
    &&& has_key_index(table)
    &&& forall|i: int|
        0 <= i < key_index(table).columns.len() ==> table.has_column(
            (#[trigger] key_index(table).columns[i]).column,
        )
}

/// The columns of the local key among the given ones.
pub open spec fn local_columns(table: TableView, columns: Seq<IndexColumn>) -> Seq<ColumnId>
    decreases columns.len(),
{
    if columns.len() == 0 {
        Seq::empty()
    } else {
        let rest = local_columns(table, columns.drop_last());
        match columns.last().scope {
            IndexScope::Local => rest.push(table.column(columns.last().column).id),
            IndexScope::Partition => rest,
        }
    }
}

/// The columns of a table's local key.
pub open spec fn sort_columns(table: TableView) -> Seq<ColumnId> {
    local_columns(table, key_index(table).columns)
}

/// The texts of the string values among the given ones.
pub open spec fn strings(values: Seq<ValueView>) -> Seq<Seq<char>>
    decreases values.len(),
{
    if values.len() == 0 {
        Seq::empty()
    } else {
        let rest = strings(values.drop_last());
        match values.last().as_str() {
            Some(s) => rest.push(s),
            None => rest,
        }
    }
}

/// The text in which several values of the local key are stored.
pub open spec fn sort_key_text(values: Seq<ValueView>) -> Seq<char> {
    composite_key(strings(values))
}

/// The value for the key column at place `i`.
pub open spec fn key_value(key: ValueView, i: int) -> ValueView {
    match key {
        ValueView::Record(values) => values[i],
        value => value,
    }
}

/// The partition attributes for the first `n` key columns.
pub open spec fn partition_entries(table: TableView, key: ValueView, n: nat) -> Map<
    Seq<char>,
    AttributeView,
>
    decreases n,
{
    if n == 0 {
        Map::empty()
    } else {
        let rest = partition_entries(table, key, (n - 1) as nat);
        let column = key_index(table).columns[n - 1];
        match column.scope {
            IndexScope::Partition => rest.insert(
                table.column(column.column).name,
                attribute_of(key_value(key, n - 1)),
            ),
            IndexScope::Local => rest,
        }
    }
}

/// The names and values of the local key columns among the first `n`.
pub open spec fn local_entries(table: TableView, key: ValueView, n: nat) -> Seq<
    (Seq<char>, ValueView),
>
    decreases n,
{
    if n == 0 {
        Seq::empty()
    } else {
        let rest = local_entries(table, key, (n - 1) as nat);
        let column = key_index(table).columns[n - 1];
        match column.scope {
            IndexScope::Local => rest.push(
                (table.column(column.column).name, key_value(key, n - 1)),
            ),
            IndexScope::Partition => rest,
        }
    }
}

/// The values of entries.
pub open spec fn entry_values(entries: Seq<(Seq<char>, ValueView)>) -> Seq<ValueView> {
    entries.map_values(|e: (Seq<char>, ValueView)| e.1)
}

/// The attributes of an item's key.
///
/// A single column of the local key is stored under its own name, several are
/// joined.
pub open spec fn key_attributes(table: TableView, key: ValueView) -> Map<Seq<char>, AttributeView> {
    let n = key_index(table).columns.len();
    let partition = partition_entries(table, key, n);
    let local = local_entries(table, key, n);
    if local.len() > 1 {
        partition.insert("__sk"@, AttributeView::S(sort_key_text(entry_values(local))))
    } else if local.len() == 1 {
        partition.insert(local[0].0, attribute_of(local[0].1))
    } else {
        partition
    }
}

/// Whether there is a value for every key column, and those that are stored on
/// their own can be.
pub open spec fn key_fits(table: TableView, key: ValueView) -> bool {
    let columns = key_index(table).columns;
    &&& key matches ValueView::Record(values) ==> columns.len() <= values.len()
    &&& forall|i: int|
        0 <= i < columns.len() && (#[trigger] columns[i]).scope == IndexScope::Partition
            ==> is_storable(key_value(key, i))
    &&& local_entries(table, key, columns.len()).len() == 1 ==> is_storable(
        local_entries(table, key, columns.len())[0].1,
    )
}

/// The columns of the table's local key.
pub fn sort_key_columns(table: &Table) -> (r: Vec<ColumnId>)
    requires
        local_known(table@),
    ensures
        r@ == sort_columns(table@),
{
    let index = &table.indices[table.primary_key.index.index];
    let ghost columns = key_index(table@).columns;
    assert(index.columns@ == columns);
    let mut r: Vec<ColumnId> = Vec::new();
    let mut i: usize = 0;
    assert(columns.take(0) =~= Seq::<IndexColumn>::empty());
    while i < index.columns.len()
        invariant
            i <= columns.len(),
            columns == index.columns@,
            columns == key_index(table@).columns,
            local_known(table@),
            r@ == local_columns(table@, columns.take(i as int)),
        decreases columns.len() - i,
    {
        let column = index.columns[i];
        assert(column == key_index(table@).columns[i as int]);
        assert(columns.take(i + 1).drop_last() =~= columns.take(i as int));
        match column.scope {
            IndexScope::Local => {
                r.push(table.column(column.column).id);
            },
            IndexScope::Partition => {},
        }
        i = i + 1;
    }
    assert(columns.take(i as int) =~= columns);
    r
}

/// The texts of the string values among the given ones.
pub fn string_values(values: &Vec<&Value>) -> (r: Vec<String>)
    ensures
        texts(r@) == strings(values@.map_values(|v: &Value| v@)),
{
    let ghost views = values@.map_values(|v: &Value| v@);
    let mut r: Vec<String> = Vec::new();
    let mut i: usize = 0;
    assert(texts(r@) =~= strings(views.take(0)));
    while i < values.len()
        invariant
            i <= values@.len(),
            views == values@.map_values(|v: &Value| v@),
            texts(r@) == strings(views.take(i as int)),
        decreases values@.len() - i,
    {
        let ghost before = r@;
        assert(views.take(i + 1).drop_last() =~= views.take(i as int));
        match values[i].as_str() {
            Some(s) => {
                r.push(s.to_string());
                assert(texts(r@) =~= texts(before).push(s@));
            },
            None => {},
        }
        i = i + 1;
    }
    assert(views.take(i as int) =~= views);
    r
}

/// The attributes of an item's key.
pub fn ddb_key(table: &Table, key: &Value) -> (r: StringMap<AttributeValue>)
    requires
        is_keyed(table@),
        key_fits(table@, key@),
    ensures
        attribute_views(r@) == key_attributes(table@, key@),
{
    let index = &table.indices[table.primary_key.index.index];
    let ghost columns = key_index(table@).columns;
    let ghost all = columns.len();
    assert(index.columns@ == columns);
    let mut ret: StringMap<AttributeValue> = StringMap::new();
    let mut names: Vec<&String> = Vec::new();
    let mut values: Vec<&Value> = Vec::new();
    let mut i: usize = 0;
    assert(attribute_views(ret@) =~= partition_entries(table@, key@, 0));
    while i < index.columns.len()
        invariant
            i <= columns.len(),
            columns == index.columns@,
            columns == key_index(table@).columns,
            is_keyed(table@),
            key_fits(table@, key@),
            attribute_views(ret@) == partition_entries(table@, key@, i as nat),
            names@.len() == values@.len(),
            local_entries(table@, key@, i as nat).len() == names@.len(),
            forall|k: int|
                0 <= k < names@.len() ==> (#[trigger] local_entries(table@, key@, i as nat)[k]) == (
                    names@[k]@,
                    values@[k]@,
                ),
        decreases columns.len() - i,
    {
        let index_column = index.columns[i];
        assert(table@.has_column(key_index(table@).columns[i as int].column));
        let column = table.column(index_column.column);
        let value: &Value = match key {
            Value::Record(record) => &record[i],
            value => value,
        };
        assert(value@ == key_value(key@, i as int));
        let ghost before = ret@;
        match index_column.scope {
            IndexScope::Local => {
                names.push(&column.name);
                values.push(value);
            },
            IndexScope::Partition => {
                assert(columns[i as int].scope == IndexScope::Partition);
                ret.insert(column.name.clone(), ddb_val(value));
                assert(attribute_views(ret@) =~= attribute_views(before).insert(
                    column.name@,
                    attribute_of(value@),
                ));
            },
        }
        i = i + 1;
    }
    let ghost local = local_entries(table@, key@, all);
    let ghost before = ret@;
    if values.len() > 1 {
        // we need to concat them
        let parts = string_values(&values);
        let sk_value = delimited::compose_key(&parts);
        assert(entry_values(local) =~= values@.map_values(|v: &Value| v@));
        ret.insert("__sk".to_string(), AttributeValue::S(sk_value));
        assert(attribute_views(ret@) =~= attribute_views(before).insert(
            "__sk"@,
            AttributeView::S(sk_value@),
        ));
    } else if values.len() == 1 {
        assert(local[0] == (names@[0]@, values@[0]@));
        ret.insert(names[0].clone(), ddb_val(values[0]));
        assert(attribute_views(ret@) =~= attribute_views(before).insert(
            local[0].0,
            attribute_of(local[0].1),
        ));
    }
    ret
}

/// What a key's attributes say.
pub open spec fn key_schema(partition: Seq<char>, range: Option<Seq<char>>) -> Seq<
    (Seq<char>, KeyType),
> {
    match range {
        Some(range) => seq![(partition, KeyType::Hash), (range, KeyType::Range)],
        None => seq![(partition, KeyType::Hash)],
    }
}

/// What each attribute of a key says.
pub open spec fn key_schema_views(elements: Seq<KeySchemaElement>) -> Seq<(Seq<char>, KeyType)> {
    elements.map_values(|e: KeySchemaElement| (e.attribute_name@, e.key_type))
}

/// The attributes of a key with the given partition and range attributes.
pub fn ddb_key_schema(partition: &String, range: Option<&String>) -> (r: Vec<KeySchemaElement>)
    ensures
        key_schema_views(r@) == key_schema(
            partition@,
            match range {
                Some(range) => Some(range@),
                None => None,
            },
        ),
{
    let mut ks: Vec<KeySchemaElement> = Vec::new();
    ks.push(KeySchemaElement { attribute_name: partition.clone(), key_type: KeyType::Hash });
    match range {
        Some(range) => {
            ks.push(KeySchemaElement { attribute_name: range.clone(), key_type: KeyType::Range });
            assert(key_schema_views(ks@) =~= key_schema(partition@, Some(range@)));
        },
        None => {
            assert(key_schema_views(ks@) =~= key_schema(partition@, None));
        },
    }
    ks
}

} // verus!

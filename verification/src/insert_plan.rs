//! The requests that insert rows into a table.

use crate::attribute::{
    AttributeValue, AttributeView, attribute_of, copy_attribute, ddb_val, is_storable,
};
use crate::db::{ColumnId, Index, IndexView, Schema, Table, TableId, TableView};
use crate::delimited;
use crate::expression::name_views;
use crate::keys::{
    attribute_views, local_known, sort_columns, sort_key_columns, sort_key_text, string_values,
};
use crate::stmt::{Value, ValueView, value_views};
use crate::string_map::StringMap;
use crate::table_plan::is_unique;
use crate::text;
use vstd::prelude::*;

verus! {

/// Rows to insert.
#[derive(Debug)]
pub struct Insert {
    pub table: TableId,
    /// The columns that the rows have values for
    pub columns: Vec<ColumnId>,
    pub rows: Vec<Vec<Value>>,
}

/// A condition that an item must meet, with the names in it.
#[derive(Debug)]
pub struct Condition {
    pub expression: String,
    pub names: StringMap<String>,
}

/// A request to store an item.
#[derive(Debug)]
pub struct Put {
    pub table_name: String,
    pub item: StringMap<AttributeValue>,
    /// What must hold of the item that is there
    pub condition: Option<Condition>,
}

/// The request that inserts rows.
#[derive(Debug)]
pub enum InsertPlan {
    /// One item
    PutItem(String, StringMap<AttributeValue>),
    /// Any number of items, of one table
    BatchWriteItem(String, Vec<StringMap<AttributeValue>>),
    /// All of the items or none
    TransactWriteItems(Vec<Put>),
}

/// What a request to store an item says.
#[verifier::ext_equal]
pub struct PutView {
    pub table: Seq<char>,
    pub item: Map<Seq<char>, AttributeView>,
    pub condition: Option<(Seq<char>, Map<Seq<char>, Seq<char>>)>,
}

/// What a request that inserts rows says.
pub enum InsertView {
    PutItem(Seq<char>, Map<Seq<char>, AttributeView>),
    BatchWriteItem(Seq<char>, Seq<Map<Seq<char>, AttributeView>>),
    TransactWriteItems(Seq<PutView>),
}

impl View for Put {
    type V = PutView;

    open spec fn view(&self) -> PutView {
        PutView {
            table: self.table_name@,
            item: attribute_views(self.item@),
            condition: match self.condition {
                Some(condition) => Some((condition.expression@, name_views(condition.names@))),
                None => None,
            },
        }
    }
}

/// What each item of a list says.
pub open spec fn item_views(items: Seq<StringMap<AttributeValue>>) -> Seq<
    Map<Seq<char>, AttributeView>,
> {
    items.map_values(|i: StringMap<AttributeValue>| attribute_views(i@))
}

/// What each request of a list says.
pub open spec fn put_views(puts: Seq<Put>) -> Seq<PutView> {
    puts.map_values(|p: Put| p@)
}

impl View for InsertPlan {
    type V = InsertView;

    open spec fn view(&self) -> InsertView {
        match self {
            InsertPlan::PutItem(table, item) => InsertView::PutItem(
                table@,
                attribute_views(item@),
            ),
            InsertPlan::BatchWriteItem(table, items) => InsertView::BatchWriteItem(
                table@,
                item_views(items@),
            ),
            InsertPlan::TransactWriteItems(puts) => InsertView::TransactWriteItems(
                put_views(puts@),
            ),
        }
    }
}

/// Whether all the columns of the index are among the given ones.
pub open spec fn is_covered(schema: Schema, columns: Seq<ColumnId>, index: IndexView) -> bool {
    forall|j: int|
        0 <= j < index.columns.len() ==> columns.contains(
            schema.column_view((#[trigger] index.columns[j]).column).id,
        )
}

/// The unique indices that the rows have values for.
pub open spec fn updated_indices(
    schema: Schema,
    columns: Seq<ColumnId>,
    indices: Seq<IndexView>,
) -> Seq<IndexView>
    decreases indices.len(),
{
    if indices.len() == 0 {
        Seq::empty()
    } else {
        let rest = updated_indices(schema, columns, indices.drop_last());
        // Don't update the index if the value is not included.
        if is_unique(indices.last()) && is_covered(schema, columns, indices.last()) {
            rest.push(indices.last())
        } else {
            rest
        }
    }
}

/// Whether the column is part of a local key that is joined into one attribute.
pub open spec fn is_joined(sk_cols: Seq<ColumnId>, id: ColumnId) -> bool {
    sk_cols.len() > 1 && sk_cols.contains(id)
}

/// The attributes of the first `n` columns of a row. Null values are left out,
/// and so is what is joined.
pub open spec fn row_attributes(
    schema: Schema,
    columns: Seq<ColumnId>,
    sk_cols: Seq<ColumnId>,
    row: Seq<ValueView>,
    n: nat,
) -> Map<Seq<char>, AttributeView>
    decreases n,
{
    if n == 0 {
        Map::empty()
    } else {
        let rest = row_attributes(schema, columns, sk_cols, row, (n - 1) as nat);
        if is_joined(sk_cols, columns[n - 1]) || row[n - 1] is Null {
            rest
        } else {
            rest.insert(schema.column_view(columns[n - 1]).name, attribute_of(row[n - 1]))
        }
    }
}

/// The value of a column in a row, if it has one: the last of the first `n` for it.
pub open spec fn row_value(
    columns: Seq<ColumnId>,
    row: Seq<ValueView>,
    id: ColumnId,
    n: nat,
) -> Option<ValueView>
    decreases n,
{
    if n == 0 {
        None
    } else if columns[n - 1] == id {
        Some(row[n - 1])
    } else {
        row_value(columns, row, id, (n - 1) as nat)
    }
}

/// The values of the local key in a row.
pub open spec fn sort_values(
    columns: Seq<ColumnId>,
    sk_cols: Seq<ColumnId>,
    row: Seq<ValueView>,
) -> Seq<ValueView> {
    sk_cols.map_values(|c: ColumnId| row_value(columns, row, c, columns.len())->0)
}

/// The item that stores a row.
pub open spec fn item_of(
    schema: Schema,
    columns: Seq<ColumnId>,
    sk_cols: Seq<ColumnId>,
    row: Seq<ValueView>,
) -> Map<Seq<char>, AttributeView> {
    let attributes = row_attributes(schema, columns, sk_cols, row, columns.len());
    if sk_cols.len() > 1 {
        attributes.insert(
            "__sk"@,
            AttributeView::S(sort_key_text(sort_values(columns, sk_cols, row))),
        )
    } else {
        attributes
    }
}

/// The values of the first `n` columns of an index, if the item has them all.
pub open spec fn index_attributes(
    schema: Schema,
    index: IndexView,
    item: Map<Seq<char>, AttributeView>,
    n: nat,
) -> Option<Map<Seq<char>, AttributeView>>
    decreases n,
{
    if n == 0 {
        Some(Map::empty())
    } else {
        let name = schema.column_view(index.columns[n - 1].column).name;
        match index_attributes(schema, index, item, (n - 1) as nat) {
            Some(rest) => if item.contains_key(name) {
                Some(rest.insert(name, item[name]))
            } else {
                None
            },
            None => None,
        }
    }
}

/// The attributes with those of the first `n` primary key columns of the item added.
pub open spec fn with_key(
    table: TableView,
    attributes: Map<Seq<char>, AttributeView>,
    item: Map<Seq<char>, AttributeView>,
    n: nat,
) -> Map<Seq<char>, AttributeView>
    decreases n,
{
    if n == 0 {
        attributes
    } else {
        let name = table.column(table.key_columns[n - 1]).name;
        with_key(table, attributes, item, (n - 1) as nat).insert(name, item[name])
    }
}

/// The condition that there is no item with the same first value of the index.
pub open spec fn absence(schema: Schema, index: IndexView) -> (
    Seq<char>,
    Map<Seq<char>, Seq<char>>,
) {
    if index.columns.len() == 0 {
        (Seq::empty(), Map::empty())
    } else {
        let column = schema.column_view(index.columns[0].column);
        let name = "#"@ + text::decimal(column.id.index as nat);
        ("attribute_not_exists("@ + name + ")"@, Map::empty().insert(name, column.name))
    }
}

/// The request that stores an item in a unique index, unless a value is missing.
pub open spec fn index_put(
    schema: Schema,
    table: TableView,
    index: IndexView,
    item: Map<Seq<char>, AttributeView>,
) -> Option<PutView> {
    match index_attributes(schema, index, item, index.columns.len()) {
        Some(attributes) => Some(
            PutView {
                table: index.name,
                item: with_key(table, attributes, item, table.key_columns.len()),
                condition: Some(absence(schema, index)),
            },
        ),
        None => None,
    }
}

/// The request that stores an item in the table itself.
pub open spec fn table_put(table: TableView, item: Map<Seq<char>, AttributeView>) -> PutView {
    PutView { table: table.name, item, condition: None }
}

/// The requests that store items in the table and in a unique index.
pub open spec fn transaction(
    schema: Schema,
    table: TableView,
    index: IndexView,
    items: Seq<Map<Seq<char>, AttributeView>>,
) -> Seq<PutView>
    decreases items.len(),
{
    if items.len() == 0 {
        Seq::empty()
    } else {
        let rest = transaction(schema, table, index, items.drop_last());
        let with_index = match index_put(schema, table, index, items.last()) {
            Some(put) => rest.push(put),
            None => rest,
        };
        with_index.push(table_put(table, items.last()))
    }
}

/// What each row says.
pub open spec fn row_views(rows: Seq<Vec<Value>>) -> Seq<Seq<ValueView>> {
    rows.map_values(|r: Vec<Value>| value_views(r@))
}

/// The items that store rows.
pub open spec fn items_of(
    schema: Schema,
    columns: Seq<ColumnId>,
    sk_cols: Seq<ColumnId>,
    rows: Seq<Seq<ValueView>>,
) -> Seq<Map<Seq<char>, AttributeView>> {
    rows.map_values(|r: Seq<ValueView>| item_of(schema, columns, sk_cols, r))
}

/// The request that inserts rows.
///
/// Without a unique index to update, a single row is stored on its own and
/// several in a batch. With one, each row is stored together with its entry in
/// the index, for which there must be none yet.
pub open spec fn insertion(
    schema: Schema,
    table: TableView,
    columns: Seq<ColumnId>,
    rows: Seq<Seq<ValueView>>,
) -> InsertView {
    let updated = updated_indices(schema, columns, table.indices);
    let items = items_of(schema, columns, sort_columns(table), rows);
    if updated.len() == 0 {
        if items.len() == 1 {
            InsertView::PutItem(table.name, items[0])
        } else {
            InsertView::BatchWriteItem(table.name, items)
        }
    } else {
        InsertView::TransactWriteItems(transaction(schema, table, updated[0], items))
    }
}

/// Whether a row has a value for every column, and those that are stored on their
/// own can be.
pub open spec fn row_fits(
    columns: Seq<ColumnId>,
    sk_cols: Seq<ColumnId>,
    row: Seq<ValueView>,
) -> bool {
    &&& columns.len() <= row.len()
    &&& forall|i: int|
        0 <= i < columns.len() && !is_joined(sk_cols, #[trigger] columns[i]) && !(row[i] is Null)
            ==> is_storable(row[i])
}

/// Whether the columns of the primary key are the table's, and the item has an
/// attribute for each of them, if it goes into the index.
pub open spec fn key_present(
    schema: Schema,
    table: TableView,
    index: IndexView,
    item: Map<Seq<char>, AttributeView>,
) -> bool {
    index_put(schema, table, index, item) is Some ==> forall|k: int|
        0 <= k < table.key_columns.len() ==> table.has_column(#[trigger] table.key_columns[k])
            && item.contains_key(table.column(table.key_columns[k]).name)
}

/// Whether the columns of an index are columns of the schema.
pub open spec fn index_known(schema: Schema, index: IndexView) -> bool {
    forall|j: int|
        0 <= j < index.columns.len() ==> schema.has_column((#[trigger] index.columns[j]).column)
}

/// Whether the first `n` columns of the index are among the given ones.
pub open spec fn is_covered_up_to(
    schema: Schema,
    columns: Seq<ColumnId>,
    index: IndexView,
    n: int,
) -> bool {
    forall|j: int|
        0 <= j < n ==> columns.contains(
            schema.column_view((#[trigger] index.columns[j]).column).id,
        )
}

/// Whether it can be told if the rows have values for an index: of the columns of a
/// unique index, those are columns of the schema that come before, or are, the first
/// one that is not among the given ones.
pub open spec fn coverage_known(
    schema: Schema,
    columns: Seq<ColumnId>,
    index: IndexView,
) -> bool {
    is_unique(index) ==> forall|j: int|
        0 <= j < index.columns.len() && #[trigger] is_covered_up_to(schema, columns, index, j)
            ==> schema.has_column(index.columns[j].column)
}

/// An index that the rows have values for has columns of the schema.
pub proof fn lemma_covered(schema: Schema, columns: Seq<ColumnId>, index: IndexView)
    requires
        is_unique(index),
        is_covered(schema, columns, index),
        coverage_known(schema, columns, index),
    ensures
        index_known(schema, index),
{
    assert forall|j: int| 0 <= j < index.columns.len() implies schema.has_column(
        (#[trigger] index.columns[j]).column,
    ) by {
        assert(is_covered_up_to(schema, columns, index, j));
    }
}

/// Whether rows can be inserted into a table.
///
/// Where the local key is joined, the rows must have values for all of it. At
/// most one unique index can be updated, and then the items must have all the
/// attributes of the primary key.
pub open spec fn can_insert(
    schema: Schema,
    table: TableView,
    columns: Seq<ColumnId>,
    rows: Seq<Seq<ValueView>>,
) -> bool {
    let sk_cols = sort_columns(table);
    let updated = updated_indices(schema, columns, table.indices);
    &&& local_known(table)
    &&& rows.len() > 0 ==> forall|i: int|
        0 <= i < columns.len() ==> schema.has_column(#[trigger] columns[i])
    &&& forall|i: int|
        0 <= i < table.indices.len() ==> coverage_known(
            schema,
            columns,
            #[trigger] table.indices[i],
        )
    &&& forall|i: int| 0 <= i < rows.len() ==> row_fits(columns, sk_cols, #[trigger] rows[i])
    &&& sk_cols.len() > 1 && rows.len() > 0 ==> forall|k: int|
        0 <= k < sk_cols.len() ==> columns.contains(#[trigger] sk_cols[k])
    &&& updated.len() <= 1
    &&& updated.len() == 1 ==> forall|i: int|
        0 <= i < rows.len() ==> key_present(
            schema,
            table,
            updated[0],
            item_of(schema, columns, sk_cols, #[trigger] rows[i]),
        )
}

/// Whether the column is among the given ones.
pub(crate) fn has_column(columns: &Vec<ColumnId>, id: ColumnId) -> (r: bool)
    ensures
        r == columns@.contains(id),
{
    let mut i: usize = 0;
    while i < columns.len()
        invariant
            i <= columns@.len(),
            forall|k: int| 0 <= k < i ==> columns@[k] != id,
        decreases columns@.len() - i,
    {
        if columns[i] == id {
            assert(columns@[i as int] == id);
            return true;
        }
        i = i + 1;
    }
    false
}

/// Whether the rows have values for a unique index.
pub(crate) fn updates(schema: &Schema, columns: &Vec<ColumnId>, index: &Index) -> (r: bool)
    requires
        coverage_known(*schema, columns@, index@),
    ensures
        r == (is_unique(index@) && is_covered(*schema, columns@, index@)),
{
    if index.primary_key || !index.unique {
        return false;
    }
    let mut i: usize = 0;
    while i < index.columns.len()
        invariant
            i <= index.columns@.len(),
            is_unique(index@),
            coverage_known(*schema, columns@, index@),
            is_covered_up_to(*schema, columns@, index@, i as int),
        decreases index.columns@.len() - i,
    {
        assert(schema.has_column(index@.columns[i as int].column));
        let column = schema.column(index.columns[i].column);
        if !has_column(columns, column.id) {
            assert(!columns@.contains(
                schema.column_view(index@.columns[i as int].column).id,
            ));
            assert(!is_covered(*schema, columns@, index@));
            return false;
        }
        i = i + 1;
    }
    true
}

/// The first unique index that the rows have values for, and whether there is one.
fn find_updated(schema: &Schema, table: &Table, columns: &Vec<ColumnId>) -> (r: Option<usize>)
    requires
        forall|i: int|
            0 <= i < table@.indices.len() ==> coverage_known(
                *schema,
                columns@,
                #[trigger] table@.indices[i],
            ),
        updated_indices(*schema, columns@, table@.indices).len() <= 1,
    ensures
        ({
            let updated = updated_indices(*schema, columns@, table@.indices);
            match r {
                Some(i) => {
                    &&& updated.len() == 1
                    &&& i < table.indices@.len()
                    &&& table.indices@[i as int]@ == updated[0]
                    &&& index_known(*schema, updated[0])
                },
                None => updated.len() == 0,
            }
        }),
{
    let ghost indices = table@.indices;
    let ghost all = updated_indices(*schema, columns@, indices);
    let mut found: Option<usize> = None;
    let mut i: usize = 0;
    assert(indices.take(0) =~= Seq::<IndexView>::empty());
    while i < table.indices.len()
        invariant
            i <= indices.len(),
            indices == table@.indices,
            all == updated_indices(*schema, columns@, indices),
            all.len() <= 1,
            forall|k: int|
                0 <= k < table@.indices.len() ==> coverage_known(
                    *schema,
                    columns@,
                    #[trigger] table@.indices[k],
                ),
            match found {
                Some(k) => {
                    &&& k < i
                    &&& index_known(*schema, table.indices@[k as int]@)
                    &&& updated_indices(*schema, columns@, indices.take(i as int)).len() > 0
                    &&& updated_indices(*schema, columns@, indices.take(i as int))[0]
                        == table.indices@[k as int]@
                },
                None => updated_indices(*schema, columns@, indices.take(i as int)).len() == 0,
            },
        decreases indices.len() - i,
    {
        assert(coverage_known(*schema, columns@, table@.indices[i as int]));
        assert(indices[i as int] == table.indices@[i as int]@);
        assert(indices.take(i + 1).drop_last() =~= indices.take(i as int));
        if updates(schema, columns, &table.indices[i]) {
            proof {
                lemma_covered(*schema, columns@, table.indices@[i as int]@);
            }
            if found.is_none() {
                found = Some(i);
            }
        }
        i = i + 1;
    }
    assert(indices.take(i as int) =~= indices);
    found
}

/// The last value of a row that is for the given column.
fn find_value<'r>(columns: &Vec<ColumnId>, row: &'r Vec<Value>, id: ColumnId) -> (r: &'r Value)
    requires
        columns@.len() <= row@.len(),
        columns@.contains(id),
    ensures
        row_value(columns@, value_views(row@), id, columns@.len()) == Some(r@),
{
    let n: usize = columns.len();
    let mut i: usize = n;
    let ghost at = columns@.index_of(id);
    while columns[i - 1] != id
        invariant
            0 < i <= n,
            n == columns@.len(),
            n <= row@.len(),
            0 <= at < i,
            columns@[at] == id,
            row_value(columns@, value_views(row@), id, columns@.len()) == row_value(
                columns@,
                value_views(row@),
                id,
                i as nat,
            ),
        decreases i,
    {
        i = i - 1;
    }
    &row[i - 1]
}

/// The item that stores a row.
pub(crate) fn build_item(
    schema: &Schema,
    columns: &Vec<ColumnId>,
    sk_cols: &Vec<ColumnId>,
    row: &Vec<Value>,
) -> (r: StringMap<AttributeValue>)
    requires
        forall|i: int| 0 <= i < columns@.len() ==> schema.has_column(#[trigger] columns@[i]),
        row_fits(columns@, sk_cols@, value_views(row@)),
        sk_cols@.len() > 1 ==> forall|k: int|
            0 <= k < sk_cols@.len() ==> columns@.contains(#[trigger] sk_cols@[k]),
    ensures
        attribute_views(r@) == item_of(*schema, columns@, sk_cols@, value_views(row@)),
{
    let ghost values = value_views(row@);
    let joined = sk_cols.len() > 1;
    let mut items: StringMap<AttributeValue> = StringMap::new();
    let mut i: usize = 0;
    assert(attribute_views(items@) =~= row_attributes(*schema, columns@, sk_cols@, values, 0));
    while i < columns.len()
        invariant
            i <= columns@.len(),
            values == value_views(row@),
            joined == (sk_cols@.len() > 1),
            forall|k: int| 0 <= k < columns@.len() ==> schema.has_column(#[trigger] columns@[k]),
            row_fits(columns@, sk_cols@, values),
            attribute_views(items@) == row_attributes(
                *schema,
                columns@,
                sk_cols@,
                values,
                i as nat,
            ),
        decreases columns@.len() - i,
    {
        assert(schema.has_column(columns@[i as int]));
        assert(values[i as int] == row@[i as int]@);
        let column = schema.column(columns[i]);
        let value = &row[i];
        // what is joined is added later
        if !(joined && has_column(sk_cols, columns[i])) {
            if !value.is_null() {
                assert(!is_joined(sk_cols@, columns@[i as int]));
                let ghost before = items@;
                items.insert(column.name.clone(), ddb_val(value));
                assert(attribute_views(items@) =~= attribute_views(before).insert(
                    column.name@,
                    attribute_of(value@),
                ));
            }
        }
        i = i + 1;
    }
    if joined {
        let sk_val = join_sort_values(columns, sk_cols, row);
        let ghost before = items@;
        items.insert("__sk".to_string(), AttributeValue::S(sk_val));
        assert(attribute_views(items@) =~= attribute_views(before).insert(
            "__sk"@,
            AttributeView::S(sk_val@),
        ));
    }
    items
}

/// The values of the local key in a row, joined.
fn join_sort_values(columns: &Vec<ColumnId>, sk_cols: &Vec<ColumnId>, row: &Vec<Value>) -> (r:
    String)
    requires
        columns@.len() <= row@.len(),
        forall|k: int| 0 <= k < sk_cols@.len() ==> columns@.contains(#[trigger] sk_cols@[k]),
    ensures
        r@ == sort_key_text(sort_values(columns@, sk_cols@, value_views(row@))),
{
    let ghost values = sort_values(columns@, sk_cols@, value_views(row@));
    let mut sk_vals: Vec<&Value> = Vec::new();
    let mut i: usize = 0;
    while i < sk_cols.len()
        invariant
            i <= sk_cols@.len(),
            values == sort_values(columns@, sk_cols@, value_views(row@)),
            columns@.len() <= row@.len(),
            forall|k: int| 0 <= k < sk_cols@.len() ==> columns@.contains(#[trigger] sk_cols@[k]),
            sk_vals@.len() == i,
            forall|k: int| 0 <= k < i ==> (#[trigger] sk_vals@[k])@ == values[k],
        decreases sk_cols@.len() - i,
    {
        assert(columns@.contains(sk_cols@[i as int]));
        sk_vals.push(find_value(columns, row, sk_cols[i]));
        i = i + 1;
    }
    assert(sk_vals@.map_values(|v: &Value| v@) =~= values);
    let parts = string_values(&sk_vals);
    delimited::compose_key(&parts)
}

/// The request that stores an item in a unique index, unless a value is missing.
fn build_index_put(
    schema: &Schema,
    table: &Table,
    index: &Index,
    item: &StringMap<AttributeValue>,
) -> (r: Option<Put>)
    requires
        index_known(*schema, index@),
        key_present(*schema, table@, index@, attribute_views(item@)),
    ensures
        match r {
            Some(put) => index_put(*schema, table@, index@, attribute_views(item@)) == Some(put@),
            None => index_put(*schema, table@, index@, attribute_views(item@)) is None,
        },
{
    let ghost view = attribute_views(item@);
    let mut index_items: StringMap<AttributeValue> = StringMap::new();
    let mut names: StringMap<String> = StringMap::new();
    let mut expression = String::new();
    let mut i: usize = 0;
    assert(attribute_views(index_items@) =~= Map::<Seq<char>, AttributeView>::empty());
    assert(name_views(names@) =~= Map::<Seq<char>, Seq<char>>::empty());
    while i < index.columns.len()
        invariant
            i <= index.columns@.len(),
            view == attribute_views(item@),
            index_known(*schema, index@),
            index_attributes(*schema, index@, view, i as nat) == Some(
                attribute_views(index_items@),
            ),
            i == 0 ==> expression@ == Seq::<char>::empty() && name_views(names@) == Map::<
                Seq<char>,
                Seq<char>,
            >::empty(),
            i > 0 ==> (expression@, name_views(names@)) == absence(*schema, index@),
        decreases index.columns@.len() - i,
    {
        assert(schema.has_column(index@.columns[i as int].column));
        let column = schema.column(index.columns[i].column);
        match item.get(column.name.as_str()) {
            Some(attribute) => {
                let ghost before = index_items@;
                index_items.insert(column.name.clone(), copy_attribute(attribute));
                assert(attribute_views(index_items@) =~= attribute_views(before).insert(
                    column.name@,
                    view[column.name@],
                ));
            },
            None => {
                proof {
                    lemma_missing(*schema, index@, view, i as nat);
                }
                return None;
            },
        }
        if i == 0 {
            let mut name = "#".to_string();
            text::append_decimal(&mut name, column.id.index as u64);
            expression.append("attribute_not_exists(");
            expression.append(name.as_str());
            expression.append(")");
            let ghost before = names@;
            names.insert(name.clone(), column.name.clone());
            proof {
                assert(name_views(names@) =~= name_views(before).insert(name@, column.name@));
                assert(expression@ =~= "attribute_not_exists("@ + name@ + ")"@);
            }
        }
        i = i + 1;
    }
    // Add primary key values
    let ghost attributes = attribute_views(index_items@);
    let mut k: usize = 0;
    while k < table.primary_key.columns.len()
        invariant
            k <= table@.key_columns.len(),
            view == attribute_views(item@),
            index_put(*schema, table@, index@, view) is Some,
            key_present(*schema, table@, index@, view),
            attribute_views(index_items@) == with_key(table@, attributes, view, k as nat),
        decreases table@.key_columns.len() - k,
    {
        assert(table@.has_column(table@.key_columns[k as int]));
        let column = table.column(table.primary_key.columns[k]);
        assert(view.contains_key(table@.column(table@.key_columns[k as int]).name));
        match item.get(column.name.as_str()) {
            Some(attribute) => {
                let ghost before = index_items@;
                index_items.insert(column.name.clone(), copy_attribute(attribute));
                assert(attribute_views(index_items@) =~= attribute_views(before).insert(
                    column.name@,
                    view[column.name@],
                ));
            },
            None => {},
        }
        k = k + 1;
    }
    let put = Put {
        table_name: index.name.clone(),
        item: index_items,
        condition: Some(Condition { expression, names }),
    };
    assert(put@ =~= index_put(*schema, table@, index@, view)->0);
    Some(put)
}

/// Where a value is missing, there is nothing to store in the index.
pub proof fn lemma_missing(
    schema: Schema,
    index: IndexView,
    item: Map<Seq<char>, AttributeView>,
    i: nat,
)
    requires
        i < index.columns.len(),
        !item.contains_key(schema.column_view(index.columns[i as int].column).name),
    ensures
        index_attributes(schema, index, item, index.columns.len()) is None,
{
    lemma_missing_from(schema, index, item, i, index.columns.len());
}

proof fn lemma_missing_from(
    schema: Schema,
    index: IndexView,
    item: Map<Seq<char>, AttributeView>,
    i: nat,
    n: nat,
)
    requires
        i < n <= index.columns.len(),
        !item.contains_key(schema.column_view(index.columns[i as int].column).name),
    ensures
        index_attributes(schema, index, item, n) is None,
    decreases n,
{
    if n > i + 1 {
        lemma_missing_from(schema, index, item, i, (n - 1) as nat);
    }
}

/// The requests that store items in the table and in a unique index.
fn build_transaction(
    schema: &Schema,
    table: &Table,
    index: &Index,
    items: Vec<StringMap<AttributeValue>>,
) -> (r: Vec<Put>)
    requires
        index_known(*schema, index@),
        forall|i: int|
            0 <= i < items@.len() ==> key_present(
                *schema,
                table@,
                index@,
                #[trigger] item_views(items@)[i],
            ),
    ensures
        put_views(r@) == transaction(*schema, table@, index@, item_views(items@)),
{
    let mut items = items;
    let ghost all = item_views(items@);
    let mut reversed: Vec<Put> = Vec::new();
    let ghost mut done: int = all.len() as int;
    assert(all.take(done) =~= all);
    assert(put_views(reversed@).reverse() =~= Seq::<PutView>::empty());
    assert(transaction(*schema, table@, index@, all.take(done)) + put_views(reversed@).reverse()
        =~= transaction(*schema, table@, index@, all));
    while items.len() > 0
        invariant
            index_known(*schema, index@),
            forall|i: int|
                0 <= i < all.len() ==> key_present(*schema, table@, index@, #[trigger] all[i]),
            done == items@.len(),
            0 <= done <= all.len(),
            item_views(items@) == all.take(done),
            transaction(*schema, table@, index@, all.take(done)) + put_views(reversed@).reverse()
                == transaction(*schema, table@, index@, all),
        decreases items@.len(),
    {
        let ghost before = items@;
        let ghost puts = put_views(reversed@);
        let item = items.pop().unwrap();
        let ghost view = attribute_views(item@);
        proof {
            assert(view == item_views(before)[done - 1]);
            assert(view == all[done - 1]);
            assert(all.take(done).drop_last() =~= all.take(done - 1));
            assert(item_views(items@) =~= all.take(done - 1));
            assert(key_present(*schema, table@, index@, all[done - 1]));
        }
        let entry = build_index_put(schema, table, index, &item);
        let put = Put { table_name: table.name.clone(), item, condition: None };
        let ghost rest = transaction(*schema, table@, index@, all.take(done - 1));
        let ghost main = put@;
        assert(main =~= table_put(table@, view));
        reversed.push(put);
        assert(put_views(reversed@) =~= puts.push(main));
        match entry {
            Some(entry) => {
                let ghost first = entry@;
                reversed.push(entry);
                proof {
                    assert(put_views(reversed@) =~= puts.push(main).push(first));
                    assert(rest + put_views(reversed@).reverse() =~= rest.push(first).push(main)
                        + puts.reverse());
                }
            },
            None => {
                assert(rest + put_views(reversed@).reverse() =~= rest.push(main) + puts.reverse());
            },
        }
        proof {
            done = done - 1;
        }
    }
    let mut r: Vec<Put> = Vec::new();
    let ghost total = put_views(reversed@).reverse();
    assert(all.take(0) =~= Seq::<Map<Seq<char>, AttributeView>>::empty());
    assert(total =~= transaction(*schema, table@, index@, all));
    assert(put_views(r@) + put_views(reversed@).reverse() =~= total);
    while reversed.len() > 0
        invariant
            put_views(r@) + put_views(reversed@).reverse() == total,
        decreases reversed@.len(),
    {
        let ghost before = reversed@;
        let ghost front = put_views(r@);
        let put = reversed.pop().unwrap();
        let ghost view = put@;
        r.push(put);
        proof {
            assert(put_views(before) =~= put_views(reversed@).push(view));
            assert(put_views(r@) =~= front.push(view));
            assert(put_views(r@) + put_views(reversed@).reverse() =~= front + put_views(
                before,
            ).reverse());
        }
    }
    assert(put_views(r@) =~= total);
    r
}

/// The request that inserts rows, and the number of rows.
pub fn plan_insert(schema: &Schema, insert: &Insert) -> (r: (InsertPlan, usize))
    requires
        insert.table.0 < schema.tables@.len(),
        can_insert(
            *schema,
            schema.tables@[insert.table.0 as int]@,
            insert.columns@,
            row_views(insert.rows@),
        ),
    ensures
        r.0@ == insertion(
            *schema,
            schema.tables@[insert.table.0 as int]@,
            insert.columns@,
            row_views(insert.rows@),
        ),
        r.1 == insert.rows@.len(),
{
    let table = schema.table(insert.table);
    let ghost rows = row_views(insert.rows@);
    let ghost columns = insert.columns@;
    let sk_cols = sort_key_columns(table);
    let updated = find_updated(schema, table, &insert.columns);

    // Create the item map
    let mut items: Vec<StringMap<AttributeValue>> = Vec::new();
    let ghost all = items_of(*schema, columns, sk_cols@, rows);
    let mut i: usize = 0;
    assert(item_views(items@) =~= all.take(0));
    while i < insert.rows.len()
        invariant
            i <= rows.len(),
            rows == row_views(insert.rows@),
            columns == insert.columns@,
            can_insert(*schema, table@, columns, rows),
            sk_cols@ == sort_columns(table@),
            all == items_of(*schema, columns, sk_cols@, rows),
            item_views(items@) == all.take(i as int),
        decreases rows.len() - i,
    {
        let ghost before = items@;
        assert(row_fits(columns, sk_cols@, rows[i as int]));
        let item = build_item(schema, &insert.columns, &sk_cols, &insert.rows[i]);
        let ghost view = attribute_views(item@);
        items.push(item);
        proof {
            assert(view == all[i as int]);
            assert(item_views(items@) =~= item_views(before).push(view));
            assert(all.take(i + 1) =~= all.take(i as int).push(all[i as int]));
        }
        i = i + 1;
    }
    assert(all.take(i as int) =~= all);
    let count: usize = items.len();
    let plan = match updated {
        None => {
            if items.len() == 1 {
                let item = items.pop().unwrap();
                assert(attribute_views(item@) == all[0]);
                InsertPlan::PutItem(table.name.clone(), item)
            } else {
                InsertPlan::BatchWriteItem(table.name.clone(), items)
            }
        },
        Some(at) => {
            let index = &table.indices[at];
            proof {
                assert forall|k: int| 0 <= k < items@.len() implies key_present(
                    *schema,
                    table@,
                    index@,
                    #[trigger] item_views(items@)[k],
                ) by {
                    assert(item_views(items@)[k] == item_of(*schema, columns, sk_cols@, rows[k]));
                }
            }
            InsertPlan::TransactWriteItems(build_transaction(schema, table, index, items))
        },
    };
    (plan, count)
}

} // verus!

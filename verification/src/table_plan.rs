//! The requests that create the tables of a database.
//!
//! Each table of the schema is stored in a table of its own, and so is each of
//! its unique indices. Any other index is a secondary index of the table.

use crate::attribute::{ScalarAttributeType, ddb_ty, is_key_type, key_attribute_type};
use crate::db::{
    ColumnId, ColumnView, Index, IndexColumn, IndexScope, IndexView, Schema, Table, TableView,
};
use crate::delimited::texts;
use crate::keys::{
    KeySchemaElement, KeyType, ddb_key_schema, has_key_index, key_index, key_schema,
    key_schema_views,
};
use crate::stmt::Type;
use crate::string_map::{StringMap, entries_map, has_key, keys_distinct, lemma_entry_of, place_of};
use vstd::prelude::*;

verus! {

/// How many reads and writes a table is made for.
#[derive(Clone, Copy, PartialEq, Eq, Structural, Debug)]
pub struct ProvisionedThroughput {
    pub read_capacity_units: i64,
    pub write_capacity_units: i64,
}

/// The type of an attribute that is part of a key.
#[derive(Debug)]
pub struct AttributeDefinition {
    pub attribute_name: String,
    pub attribute_type: ScalarAttributeType,
}

/// Which attributes of the items an index holds.
#[derive(Clone, Copy, PartialEq, Eq, Structural, Debug)]
pub enum ProjectionType {
    /// All of them
    All,
    /// Those of the keys
    KeysOnly,
}

/// A secondary index.
#[derive(Debug)]
pub struct GlobalSecondaryIndex {
    pub index_name: String,
    pub key_schema: Vec<KeySchemaElement>,
    pub projection: ProjectionType,
    pub provisioned_throughput: ProvisionedThroughput,
}

/// A request to create a table.
#[derive(Debug)]
pub struct CreateTable {
    pub table_name: String,
    pub attribute_definitions: Vec<AttributeDefinition>,
    pub key_schema: Vec<KeySchemaElement>,
    /// The secondary indices, if there are any
    pub global_secondary_indexes: Option<Vec<GlobalSecondaryIndex>>,
    pub provisioned_throughput: ProvisionedThroughput,
}

/// What creates a table of the schema.
#[derive(Debug)]
pub struct CreateTablePlan {
    /// The tables to delete first, whether or not they are there
    pub delete: Vec<String>,
    /// The tables to create then, in this order, each only if those before it
    /// were created
    pub create: Vec<CreateTable>,
}

/// The throughput of every table and index.
pub open spec fn throughput() -> ProvisionedThroughput {
    ProvisionedThroughput { read_capacity_units: 10, write_capacity_units: 5 }
}

/// Whether an index is stored in a table of its own.
pub open spec fn is_unique(index: IndexView) -> bool {
    !index.primary_key && index.unique
}

/// Whether an index is a secondary index of its table.
pub open spec fn is_secondary(index: IndexView) -> bool {
    !index.primary_key && !index.unique
}

/// The names of the unique indices.
pub open spec fn unique_names(indices: Seq<IndexView>) -> Seq<Seq<char>>
    decreases indices.len(),
{
    if indices.len() == 0 {
        Seq::empty()
    } else {
        let rest = unique_names(indices.drop_last());
        if is_unique(indices.last()) {
            rest.push(indices.last().name)
        } else {
            rest
        }
    }
}

/// The tables to delete when a table is reset: its own and those of its unique indices.
pub open spec fn deleted(table: TableView, reset: bool) -> Seq<Seq<char>> {
    if reset {
        seq![table.name] + unique_names(table.indices)
    } else {
        Seq::empty()
    }
}

/// The key columns of the given scope.
pub open spec fn scoped(columns: Seq<IndexColumn>, scope: IndexScope) -> Seq<ColumnId>
    decreases columns.len(),
{
    if columns.len() == 0 {
        Seq::empty()
    } else {
        let rest = scoped(columns.drop_last(), scope);
        if columns.last().scope == scope {
            rest.push(columns.last().column)
        } else {
            rest
        }
    }
}

/// The column that picks the partition.
pub open spec fn partition_column(table: TableView) -> ColumnView {
    table.column(scoped(key_index(table).columns, IndexScope::Partition)[0])
}

/// The name and the type of the attribute that orders items within a partition.
///
/// Several columns of the local key are joined into one attribute.
pub open spec fn range_attribute(table: TableView) -> Option<(Seq<char>, Type)> {
    let local = scoped(key_index(table).columns, IndexScope::Local);
    if local.len() > 1 {
        Some(("__sk"@, Type::String))
    } else if local.len() == 1 {
        Some((table.column(local[0]).name, table.column(local[0]).ty))
    } else {
        None
    }
}

/// The column of an index over a single column.
pub open spec fn index_column(table: TableView, index: IndexView) -> ColumnView {
    table.column(index.columns[0].column)
}

/// The attributes of secondary indices by name.
pub open spec fn secondary_attributes(
    table: TableView,
    start: Map<Seq<char>, Type>,
    indices: Seq<IndexView>,
) -> Map<Seq<char>, Type>
    decreases indices.len(),
{
    if indices.len() == 0 {
        start
    } else {
        let rest = secondary_attributes(table, start, indices.drop_last());
        if is_secondary(indices.last()) {
            let column = index_column(table, indices.last());
            rest.insert(column.name, column.ty)
        } else {
            rest
        }
    }
}

/// The attributes of the primary key by name.
pub open spec fn key_attribute_types(table: TableView) -> Map<Seq<char>, Type> {
    let partition = Map::empty().insert(partition_column(table).name, partition_column(table).ty);
    match range_attribute(table) {
        Some((name, ty)) => partition.insert(name, ty),
        None => partition,
    }
}

/// The attributes of all keys of the table by name.
pub open spec fn defined_attributes(table: TableView) -> Map<Seq<char>, Type> {
    secondary_attributes(table, key_attribute_types(table), table.indices)
}

/// The names and keys of the secondary indices.
pub open spec fn secondary_indices(table: TableView, indices: Seq<IndexView>) -> Seq<
    (Seq<char>, Seq<(Seq<char>, KeyType)>),
>
    decreases indices.len(),
{
    if indices.len() == 0 {
        Seq::empty()
    } else {
        let rest = secondary_indices(table, indices.drop_last());
        if is_secondary(indices.last()) {
            rest.push(
                (
                    indices.last().name,
                    key_schema(index_column(table, indices.last()).name, None),
                ),
            )
        } else {
            rest
        }
    }
}

/// Whether the definitions give each attribute its type, and each once.
pub open spec fn defines(
    definitions: Seq<AttributeDefinition>,
    attributes: Map<Seq<char>, Type>,
) -> bool {
    &&& forall|i: int, j: int|
        0 <= i < j < definitions.len() ==> (#[trigger] definitions[i]).attribute_name@ != (
        #[trigger] definitions[j]).attribute_name@
    &&& forall|i: int|
        0 <= i < definitions.len() ==> {
            &&& attributes.contains_key((#[trigger] definitions[i]).attribute_name@)
            &&& definitions[i].attribute_type == key_attribute_type(
                attributes[definitions[i].attribute_name@],
            )
        }
    &&& forall|name: Seq<char>| #[trigger]
        attributes.contains_key(name) ==> exists|i: int|
            0 <= i < definitions.len() && (#[trigger] definitions[i]).attribute_name@ == name
}

/// What secondary indices say.
pub open spec fn secondary_views(indices: Seq<GlobalSecondaryIndex>) -> Seq<
    (Seq<char>, Seq<(Seq<char>, KeyType)>),
> {
    indices.map_values(
        |i: GlobalSecondaryIndex| (i.index_name@, key_schema_views(i.key_schema@)),
    )
}

/// Whether all the indices hold all attributes of the items, and have the throughput
/// of their table.
pub open spec fn all_provisioned(indices: Seq<GlobalSecondaryIndex>) -> bool {
    forall|i: int|
        0 <= i < indices.len() ==> {
            &&& (#[trigger] indices[i]).projection == ProjectionType::All
            &&& indices[i].provisioned_throughput == throughput()
        }
}

/// Whether a request asks for the given table.
pub open spec fn is_request(
    r: CreateTable,
    name: Seq<char>,
    attributes: Map<Seq<char>, Type>,
    keys: Seq<(Seq<char>, KeyType)>,
    secondary: Seq<(Seq<char>, Seq<(Seq<char>, KeyType)>)>,
) -> bool {
    &&& r.table_name@ == name
    &&& defines(r.attribute_definitions@, attributes)
    &&& key_schema_views(r.key_schema@) == keys
    &&& match r.global_secondary_indexes {
        Some(indices) => secondary.len() > 0 && secondary_views(indices@) == secondary
            && all_provisioned(indices@),
        None => secondary.len() == 0,
    }
    &&& r.provisioned_throughput == throughput()
}

/// The unique indices.
pub open spec fn unique_indices(indices: Seq<IndexView>) -> Seq<IndexView>
    decreases indices.len(),
{
    if indices.len() == 0 {
        Seq::empty()
    } else {
        let rest = unique_indices(indices.drop_last());
        if is_unique(indices.last()) {
            rest.push(indices.last())
        } else {
            rest
        }
    }
}

/// The column of a unique index, wherever in the schema it is.
pub open spec fn unique_column(schema: Schema, index: IndexView) -> ColumnView {
    schema.column_view(index.columns[0].column)
}

/// Whether a request creates the table itself.
pub open spec fn creates_table(r: CreateTable, table: TableView) -> bool {
    is_request(
        r,
        table.name,
        defined_attributes(table),
        key_schema(
            partition_column(table).name,
            match range_attribute(table) {
                Some((name, _)) => Some(name),
                None => None,
            },
        ),
        secondary_indices(table, table.indices),
    )
}

/// Whether a request creates the table of a unique index.
pub open spec fn creates_unique(r: CreateTable, schema: Schema, index: IndexView) -> bool {
    let column = unique_column(schema, index);
    is_request(
        r,
        index.name,
        Map::empty().insert(column.name, column.ty),
        key_schema(column.name, None),
        Seq::empty(),
    )
}

/// Whether an index is over a single column, and one whose type can be part of a key
/// if the index is stored in a table of its own.
pub open spec fn index_fits(schema: Schema, table: TableView, index: IndexView) -> bool {
    !index.primary_key ==> {
        &&& index.columns.len() == 1
        &&& if index.unique {
            schema.has_column(index.columns[0].column) && is_key_type(
                unique_column(schema, index).ty,
            )
        } else {
            table.has_column(index.columns[0].column)
        }
    }
}

/// Whether exactly one column picks the partition, every index but that over the
/// primary key is over a single column, and all columns that become attributes of a
/// key are there.
pub open spec fn keys_found(schema: Schema, table: TableView) -> bool {
    let partition = scoped(key_index(table).columns, IndexScope::Partition);
    let local = scoped(key_index(table).columns, IndexScope::Local);
    &&& has_key_index(table)
    &&& partition.len() == 1
    &&& table.has_column(partition[0])
    &&& local.len() == 1 ==> table.has_column(local[0])
    &&& forall|i: int|
        0 <= i < table.indices.len() ==> index_fits(schema, table, #[trigger] table.indices[i])
}

/// Whether all the types can be part of a key.
pub open spec fn all_key_types(attributes: Map<Seq<char>, Type>) -> bool {
    forall|name: Seq<char>| #[trigger]
        attributes.contains_key(name) ==> is_key_type(attributes[name])
}

/// Whether requests can be made for a table.
pub open spec fn can_create(schema: Schema, table: TableView) -> bool {
    keys_found(schema, table) && all_key_types(defined_attributes(table))
}

/// The key columns of a scope are the table's if all key columns are.
pub proof fn lemma_scoped(table: TableView, columns: Seq<IndexColumn>, scope: IndexScope)
    requires
        forall|i: int|
            0 <= i < columns.len() ==> table.has_column((#[trigger] columns[i]).column),
    ensures
        forall|i: int|
            0 <= i < scoped(columns, scope).len() ==> table.has_column(
                #[trigger] scoped(columns, scope)[i],
            ),
    decreases columns.len(),
{
    if columns.len() > 0 {
        let rest = columns.drop_last();
        assert forall|i: int| 0 <= i < rest.len() implies table.has_column(
            (#[trigger] rest[i]).column,
        ) by {
            assert(rest[i] == columns[i]);
        }
        lemma_scoped(table, rest, scope);
        assert(table.has_column(columns[columns.len() - 1].column));
        assert forall|i: int| 0 <= i < scoped(columns, scope).len() implies table.has_column(
            #[trigger] scoped(columns, scope)[i],
        ) by {
            if i < scoped(rest, scope).len() {
                assert(table.has_column(scoped(rest, scope)[i]));
            }
        }
    }
}

/// The key columns of the given scope.
pub fn key_columns(table: &Table, scope: IndexScope) -> (r: Vec<ColumnId>)
    requires
        has_key_index(table@),
    ensures
        r@ == scoped(key_index(table@).columns, scope),
{
    let index = &table.indices[table.primary_key.index.index];
    let ghost columns = key_index(table@).columns;
    assert(index.columns@ == columns);
    let mut r: Vec<ColumnId> = Vec::new();
    let mut i: usize = 0;
    assert(columns.take(0) =~= Seq::<IndexColumn>::empty());
    while i < index.columns.len()
        invariant
            i <= columns.len(),
            columns == index.columns@,
            r@ == scoped(columns.take(i as int), scope),
        decreases columns.len() - i,
    {
        assert(columns.take(i + 1).drop_last() =~= columns.take(i as int));
        if index.columns[i].scope == scope {
            r.push(index.columns[i].column);
        }
        i = i + 1;
    }
    assert(columns.take(i as int) =~= columns);
    r
}

/// The definitions of the given attributes.
fn define(attributes: StringMap<Type>) -> (r: Vec<AttributeDefinition>)
    requires
        all_key_types(attributes@),
    ensures
        defines(r@, attributes@),
{
    let ghost map = attributes@;
    let entries = attributes.into_entries();
    let mut r: Vec<AttributeDefinition> = Vec::new();
    let mut i: usize = 0;
    while i < entries.len()
        invariant
            i <= entries@.len(),
            keys_distinct(entries@),
            entries_map(entries@) == map,
            all_key_types(map),
            r@.len() == i,
            forall|k: int|
                0 <= k < i ==> {
                    &&& (#[trigger] r@[k]).attribute_name@ == entries@[k].0@
                    &&& r@[k].attribute_type == key_attribute_type(entries@[k].1)
                },
        decreases entries@.len() - i,
    {
        proof {
            lemma_entry_of(entries@, i as int);
        }
        let attribute_name = entries[i].0.clone();
        let attribute_type = ddb_ty(&entries[i].1);
        r.push(AttributeDefinition { attribute_name, attribute_type });
        i = i + 1;
    }
    proof {
        assert forall|i: int, j: int| 0 <= i < j < r@.len() implies (
        #[trigger] r@[i]).attribute_name@ != (#[trigger] r@[j]).attribute_name@ by {
            assert(entries@[i].0@ != entries@[j].0@);
        }
        assert forall|i: int| 0 <= i < r@.len() implies {
            &&& map.contains_key((#[trigger] r@[i]).attribute_name@)
            &&& r@[i].attribute_type == key_attribute_type(map[r@[i].attribute_name@])
        } by {
            lemma_entry_of(entries@, i);
        }
        assert forall|name: Seq<char>| #[trigger] map.contains_key(name) implies exists|i: int|
            0 <= i < r@.len() && (#[trigger] r@[i]).attribute_name@ == name by {
            assert(has_key(entries@, name));
            let i = place_of(entries@, name);
            assert(r@[i].attribute_name@ == name);
        }
    }
    r
}

/// The throughput of every table and index.
fn provisioned() -> (r: ProvisionedThroughput)
    ensures
        r == throughput(),
{
    ProvisionedThroughput { read_capacity_units: 10, write_capacity_units: 5 }
}

/// The tables to delete when a table is reset.
fn plan_deletes(table: &Table) -> (r: Vec<String>)
    ensures
        texts(r@) == deleted(table@, true),
{
    let ghost indices = table@.indices;
    let mut r: Vec<String> = Vec::new();
    r.push(table.name.clone());
    let mut i: usize = 0;
    assert(texts(r@) =~= seq![table@.name] + unique_names(indices.take(0)));
    while i < table.indices.len()
        invariant
            i <= indices.len(),
            indices == table@.indices,
            texts(r@) == seq![table@.name] + unique_names(
                indices.take(i as int),
            ),
        decreases indices.len() - i,
    {
        let index = &table.indices[i];
        let ghost before = r@;
        assert(index@ == indices[i as int]);
        assert(indices.take(i + 1).drop_last() =~= indices.take(i as int));
        if !index.primary_key && index.unique {
            r.push(index.name.clone());
            assert(texts(r@) =~= texts(before).push(
                index.name@,
            ));
        }
        assert(texts(r@) =~= seq![table@.name] + unique_names(
            indices.take(i + 1),
        ));
        i = i + 1;
    }
    assert(indices.take(i as int) =~= indices);
    r
}

/// The attributes of all keys of the table by name.
pub(crate) fn collect_attributes(schema: &Schema, table: &Table) -> (r: StringMap<Type>)
    requires
        keys_found(*schema, table@),
    ensures
        r@ == defined_attributes(table@),
{
    let mut attributes: StringMap<Type> = StringMap::new();
    let partition_cols = key_columns(table, IndexScope::Partition);
    let sort_cols = key_columns(table, IndexScope::Local);
    let partition = table.column(partition_cols[0]);
    attributes.insert(partition.name.clone(), partition.ty);
    if sort_cols.len() > 1 {
        // need to concatenate these into a single attribute, here we just need to define the
        // attribute
        attributes.insert("__sk".to_string(), Type::String);
    } else if sort_cols.len() == 1 {
        let sort_col = table.column(sort_cols[0]);
        attributes.insert(sort_col.name.clone(), sort_col.ty);
    }
    let ghost start = key_attribute_types(table@);
    assert(attributes@ =~= start);
    let ghost indices = table@.indices;
    let mut i: usize = 0;
    assert(indices.take(0) =~= Seq::<IndexView>::empty());
    while i < table.indices.len()
        invariant
            i <= indices.len(),
            indices == table@.indices,
            keys_found(*schema, table@),
            attributes@ == secondary_attributes(table@, start, indices.take(i as int)),
        decreases indices.len() - i,
    {
        let index = &table.indices[i];
        assert(index@ == indices[i as int]);
        assert(index_fits(*schema, table@, table@.indices[i as int]));
        assert(indices.take(i + 1).drop_last() =~= indices.take(i as int));
        if !(index.primary_key || index.unique) {
            let field = table.column(index.columns[0].column);
            attributes.insert(field.name.clone(), field.ty);
        }
        i = i + 1;
    }
    assert(indices.take(i as int) =~= indices);
    attributes
}

/// The name of the attribute that orders items within a partition.
fn range_name(table: &Table) -> (r: Option<String>)
    requires
        has_key_index(table@),
        ({
            let local = scoped(key_index(table@).columns, IndexScope::Local);
            local.len() == 1 ==> table@.has_column(local[0])
        }),
    ensures
        match (r, range_attribute(table@)) {
            (Some(name), Some((view, _))) => name@ == view,
            (None, None) => true,
            _ => false,
        },
{
    let sort_cols = key_columns(table, IndexScope::Local);
    if sort_cols.len() > 1 {
        Some("__sk".to_string())
    } else if sort_cols.len() == 1 {
        Some(table.column(sort_cols[0]).name.clone())
    } else {
        None
    }
}

/// The secondary indices of the table.
fn plan_secondary(schema: &Schema, table: &Table) -> (r: Vec<GlobalSecondaryIndex>)
    requires
        keys_found(*schema, table@),
    ensures
        secondary_views(r@) == secondary_indices(table@, table@.indices),
        all_provisioned(r@),
{
    let ghost indices = table@.indices;
    let mut gsis: Vec<GlobalSecondaryIndex> = Vec::new();
    let mut i: usize = 0;
    assert(indices.take(0) =~= Seq::<IndexView>::empty());
    assert(secondary_views(gsis@) =~= secondary_indices(table@, indices.take(0)));
    while i < table.indices.len()
        invariant
            i <= indices.len(),
            indices == table@.indices,
            keys_found(*schema, table@),
            secondary_views(gsis@) == secondary_indices(table@, indices.take(i as int)),
            all_provisioned(gsis@),
        decreases indices.len() - i,
    {
        let index = &table.indices[i];
        let ghost before = gsis@;
        assert(index@ == indices[i as int]);
        assert(index_fits(*schema, table@, table@.indices[i as int]));
        assert(indices.take(i + 1).drop_last() =~= indices.take(i as int));
        if !(index.primary_key || index.unique) {
            let field = table.column(index.columns[0].column);
            let gsi = GlobalSecondaryIndex {
                index_name: index.name.clone(),
                key_schema: ddb_key_schema(&field.name, None),
                projection: ProjectionType::All,
                provisioned_throughput: provisioned(),
            };
            let ghost added = (gsi.index_name@, key_schema_views(gsi.key_schema@));
            gsis.push(gsi);
            assert(secondary_views(gsis@) =~= secondary_views(before).push(added));
        }
        i = i + 1;
    }
    assert(indices.take(i as int) =~= indices);
    gsis
}

/// The request that creates the table itself.
fn plan_table(schema: &Schema, table: &Table) -> (r: CreateTable)
    requires
        can_create(*schema, table@),
    ensures
        creates_table(r, table@),
{
    // Calculate which attributes need to be defined
    let attributes = collect_attributes(schema, table);
    let partition_cols = key_columns(table, IndexScope::Partition);
    let partition = table.column(partition_cols[0]);
    let range = range_name(table);
    let gsis = plan_secondary(schema, table);
    let has_gsis = gsis.len() > 0;
    assert(secondary_views(gsis@).len() == gsis@.len());
    let range_name: Option<&String> = match &range {
        Some(name) => Some(name),
        None => None,
    };
    let key_schema = ddb_key_schema(&partition.name, range_name);
    CreateTable {
        table_name: table.name.clone(),
        attribute_definitions: define(attributes),
        key_schema,
        global_secondary_indexes: if has_gsis {
            Some(gsis)
        } else {
            None
        },
        provisioned_throughput: provisioned(),
    }
}

/// The request that creates the table of a unique index.
fn plan_unique(schema: &Schema, index: &Index) -> (r: CreateTable)
    requires
        index.columns@.len() == 1,
        schema.has_column(index.columns@[0].column),
        is_key_type(unique_column(*schema, index@).ty),
    ensures
        creates_unique(r, *schema, index@),
{
    let pk = schema.column(index.columns[0].column);
    let mut attributes: StringMap<Type> = StringMap::new();
    attributes.insert(pk.name.clone(), pk.ty);
    CreateTable {
        table_name: index.name.clone(),
        attribute_definitions: define(attributes),
        key_schema: ddb_key_schema(&pk.name, None),
        global_secondary_indexes: None,
        provisioned_throughput: provisioned(),
    }
}

/// What creates a table of the schema, and the tables of its unique indices.
pub fn plan_create_table(schema: &Schema, table: &Table, reset: bool) -> (r: CreateTablePlan)
    requires
        can_create(*schema, table@),
    ensures
        texts(r.delete@) == deleted(table@, reset),
        r.create@.len() == 1 + unique_indices(table@.indices).len(),
        creates_table(r.create@[0], table@),
        forall|i: int|
            0 <= i < unique_indices(table@.indices).len() ==> creates_unique(
                #[trigger] r.create@[i + 1],
                *schema,
                unique_indices(table@.indices)[i],
            ),
{
    let delete = if reset {
        plan_deletes(table)
    } else {
        let none: Vec<String> = Vec::new();
        assert(texts(none@) =~= deleted(table@, false));
        none
    };
    let ghost indices = table@.indices;
    let mut create: Vec<CreateTable> = Vec::new();
    create.push(plan_table(schema, table));

    // Now, create separate tables for each unique index
    let mut i: usize = 0;
    assert(indices.take(0) =~= Seq::<IndexView>::empty());
    while i < table.indices.len()
        invariant
            i <= indices.len(),
            indices == table@.indices,
            can_create(*schema, table@),
            create@.len() == 1 + unique_indices(indices.take(i as int)).len(),
            creates_table(create@[0], table@),
            forall|k: int|
                0 <= k < unique_indices(indices.take(i as int)).len() ==> creates_unique(
                    #[trigger] create@[k + 1],
                    *schema,
                    unique_indices(indices.take(i as int))[k],
                ),
        decreases indices.len() - i,
    {
        let index = &table.indices[i];
        let ghost before = create@;
        assert(index@ == indices[i as int]);
        assert(index_fits(*schema, table@, table@.indices[i as int]));
        assert(indices.take(i + 1).drop_last() =~= indices.take(i as int));
        if !index.primary_key && index.unique {
            create.push(plan_unique(schema, index));
        }
        proof {
            let done = unique_indices(indices.take(i as int));
            let more = unique_indices(indices.take(i + 1));
            assert forall|k: int| 0 <= k < more.len() implies creates_unique(
                #[trigger] create@[k + 1],
                *schema,
                more[k],
            ) by {
                if k < done.len() {
                    assert(creates_unique(before[k + 1], *schema, done[k]));
                }
            }
        }
        i = i + 1;
    }
    assert(indices.take(i as int) =~= indices);
    CreateTablePlan { delete, create }
}

} // verus!

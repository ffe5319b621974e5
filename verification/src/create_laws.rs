//! What the requests that create tables ask for, index by index.

use crate::attribute::ScalarAttributeType;
use crate::db::{ColumnId, IndexColumn, IndexScope, IndexView, Schema, TableView};
use crate::keys::{KeyType, KeySchemaElement, key_schema_views};
use crate::stmt::Type;
use crate::table_plan::{
    CreateTable, GlobalSecondaryIndex, ProjectionType, can_create, creates_table, creates_unique,
    defined_attributes, deleted, scoped, secondary_attributes, secondary_indices, secondary_views,
    unique_indices, unique_names,
};
use vstd::prelude::*;

verus! {

/// Keeps an index if it is neither unique nor over the primary key.
pub open spec fn plain() -> spec_fn(IndexView) -> Option<IndexView> {
    |i: IndexView|
        if !i.primary_key && !i.unique {
            Some(i)
        } else {
            None
        }
}

/// Keeps an index if it is unique and not over the primary key.
pub open spec fn unique_only() -> spec_fn(IndexView) -> Option<IndexView> {
    |i: IndexView|
        if !i.primary_key && i.unique {
            Some(i)
        } else {
            None
        }
}

/// Keeps a key column of the given scope.
pub open spec fn of_scope(scope: IndexScope) -> spec_fn(IndexColumn) -> Option<ColumnId> {
    |c: IndexColumn|
        if c.scope == scope {
            Some(c.column)
        } else {
            None
        }
}

/// The key columns of the given scope, in their order.
pub open spec fn key_parts(table: TableView, scope: IndexScope) -> Seq<ColumnId> {
    table.indices[table.key_index.index as int].columns.filter_map(of_scope(scope))
}

/// Whether the key consists of one attribute, which picks the partition.
pub open spec fn is_hash_key(elements: Seq<KeySchemaElement>, name: Seq<char>) -> bool {
    &&& elements.len() == 1
    &&& elements[0].attribute_name@ == name
    &&& elements[0].key_type == KeyType::Hash
}

proof fn lemma_secondary(table: TableView, indices: Seq<IndexView>)
    ensures
        ({
            let all = secondary_indices(table, indices);
            let kept = indices.filter_map(plain());
            &&& all.len() == kept.len()
            &&& forall|k: int|
                0 <= k < kept.len() ==> (#[trigger] all[k]) == (
                    kept[k].name,
                    seq![
                        (table.columns[kept[k].columns[0].column.index as int].name, KeyType::Hash),
                    ],
                )
        }),
    decreases indices.len(),
{
    if indices.len() > 0 {
        let rest = indices.drop_last();
        lemma_secondary(table, rest);
        let all = secondary_indices(table, indices);
        let before = secondary_indices(table, rest);
        let kept = indices.filter_map(plain());
        assert forall|k: int| 0 <= k < kept.len() implies (#[trigger] all[k]) == (
            kept[k].name,
            seq![(table.columns[kept[k].columns[0].column.index as int].name, KeyType::Hash)],
        ) by {
            if k < before.len() {
                assert(before[k] == all[k]);
            }
        }
    }
}

proof fn lemma_kept(
    indices: Seq<IndexView>,
    keep: spec_fn(IndexView) -> Option<IndexView>,
    i: int,
)
    requires
        0 <= i < indices.len(),
        keep(indices[i]) == Some(indices[i]),
    ensures
        exists|k: int|
            0 <= k < indices.filter_map(keep).len() && #[trigger] indices.filter_map(keep)[k]
                == indices[i],
    decreases indices.len(),
{
    let rest = indices.drop_last();
    let all = indices.filter_map(keep);
    if i == indices.len() - 1 {
        assert(all[all.len() - 1] == indices[i]);
    } else {
        assert(rest[i] == indices[i]);
        lemma_kept(rest, keep, i);
        let k = choose|k: int|
            0 <= k < rest.filter_map(keep).len() && #[trigger] rest.filter_map(keep)[k] == rest[i];
        assert(all[k] == rest.filter_map(keep)[k]);
    }
}

/// The secondary indices of a request.
pub open spec fn requested_indices(r: CreateTable) -> Seq<GlobalSecondaryIndex> {
    match r.global_secondary_indexes {
        Some(indices) => indices@,
        None => Seq::empty(),
    }
}

/// Whether a secondary index of a request is that of an index of the table: it has its
/// name, the index's column picks the partition, and it holds all attributes.
pub open spec fn serves(table: TableView, g: GlobalSecondaryIndex, index: IndexView) -> bool {
    &&& g.index_name@ == index.name
    &&& is_hash_key(
        g.key_schema@,
        table.columns[index.columns[0].column.index as int].name,
    )
    &&& g.projection == ProjectionType::All
    &&& g.provisioned_throughput.read_capacity_units == 10
    &&& g.provisioned_throughput.write_capacity_units == 5
}

/// The request that creates a table has one secondary index for each index of the table
/// that is neither unique nor over the primary key, in their order, and no other. It
/// lists none only if there is none.
pub proof fn law_every_plain_index_is_created(r: CreateTable, table: TableView)
    requires
        creates_table(r, table),
    ensures
        ({
            let kept = table.indices.filter_map(plain());
            let asked = requested_indices(r);
            &&& asked.len() == kept.len()
            &&& r.global_secondary_indexes is Some <==> kept.len() > 0
            &&& forall|k: int| 0 <= k < kept.len() ==> serves(table, #[trigger] asked[k], kept[k])
        }),
        forall|i: int|
            0 <= i < table.indices.len() && !(#[trigger] table.indices[i]).primary_key
                && !table.indices[i].unique ==> exists|k: int|
                0 <= k < requested_indices(r).len() && serves(
                    table,
                    #[trigger] requested_indices(r)[k],
                    table.indices[i],
                ),
{
    let kept = table.indices.filter_map(plain());
    let asked = requested_indices(r);
    lemma_secondary(table, table.indices);
    let all = secondary_indices(table, table.indices);
    assert(secondary_views(asked) =~= all);
    assert(asked.len() == secondary_views(asked).len());
    assert forall|k: int| 0 <= k < kept.len() implies serves(table, #[trigger] asked[k], kept[k]) by {
        let g = asked[k];
        assert(secondary_views(asked)[k] == all[k]);
        assert(key_schema_views(g.key_schema@) == all[k].1);
        assert(key_schema_views(g.key_schema@).len() == g.key_schema@.len());
        assert(key_schema_views(g.key_schema@)[0] == all[k].1[0]);
    }
    assert forall|i: int|
        0 <= i < table.indices.len() && !(#[trigger] table.indices[i]).primary_key
            && !table.indices[i].unique implies exists|k: int|
        0 <= k < asked.len() && serves(table, #[trigger] asked[k], table.indices[i]) by {
        lemma_kept(table.indices, plain(), i);
        let k = choose|k: int| 0 <= k < kept.len() && #[trigger] kept[k] == table.indices[i];
        assert(serves(table, asked[k], kept[k]));
    }
}

proof fn lemma_unique(indices: Seq<IndexView>)
    ensures
        unique_indices(indices) == indices.filter_map(unique_only()),
        unique_names(indices) == indices.filter_map(unique_only()).map_values(
            |i: IndexView| i.name,
        ),
    decreases indices.len(),
{
    if indices.len() > 0 {
        let rest = indices.drop_last();
        lemma_unique(rest);
        assert(unique_indices(indices) =~= indices.filter_map(unique_only()));
        assert(unique_names(indices) =~= indices.filter_map(unique_only()).map_values(
            |i: IndexView| i.name,
        ));
    } else {
        assert(unique_indices(indices) =~= indices.filter_map(unique_only()));
        assert(unique_names(indices) =~= indices.filter_map(unique_only()).map_values(
            |i: IndexView| i.name,
        ));
    }
}

/// Each unique index that is not over the primary key is created as a table of its own,
/// in their order. A reset deletes the table and the tables of all of these, and without
/// one nothing is deleted.
pub proof fn law_every_unique_index_is_a_table(table: TableView, reset: bool)
    ensures
        unique_indices(table.indices) == table.indices.filter_map(unique_only()),
        reset ==> deleted(table, reset) == seq![table.name] + table.indices.filter_map(
            unique_only(),
        ).map_values(|i: IndexView| i.name),
        !reset ==> deleted(table, reset).len() == 0,
        forall|i: int|
            0 <= i < table.indices.len() && !(#[trigger] table.indices[i]).primary_key
                && table.indices[i].unique ==> exists|k: int|
                0 <= k < unique_indices(table.indices).len() && #[trigger] unique_indices(
                    table.indices,
                )[k] == table.indices[i],
{
    lemma_unique(table.indices);
    assert forall|i: int|
        0 <= i < table.indices.len() && !(#[trigger] table.indices[i]).primary_key
            && table.indices[i].unique implies exists|k: int|
        0 <= k < unique_indices(table.indices).len() && #[trigger] unique_indices(table.indices)[k]
            == table.indices[i] by {
        lemma_kept(table.indices, unique_only(), i);
        let kept = table.indices.filter_map(unique_only());
        let k = choose|k: int| 0 <= k < kept.len() && #[trigger] kept[k] == table.indices[i];
        assert(unique_indices(table.indices)[k] == table.indices[i]);
    }
}

/// Whether the attribute type is that of keys of the given type: text for text,
/// identifiers and variants, and a number for anything else.
pub open spec fn is_type_of_key(attribute: ScalarAttributeType, ty: Type) -> bool {
    match ty {
        Type::String | Type::Id(_) | Type::Enum(_) => attribute == ScalarAttributeType::S,
        _ => attribute == ScalarAttributeType::N,
    }
}

/// The table of a unique index is named like the index, and its only attribute is the
/// column of the index, which picks the partition.
pub proof fn law_unique_table_is_keyed_by_column(r: CreateTable, schema: Schema, index: IndexView)
    requires
        creates_unique(r, schema, index),
    ensures
        ({
            let id = index.columns[0].column;
            let column = schema.tables@[id.table.0 as int]@.columns[id.index as int];
            &&& r.table_name@ == index.name
            &&& is_hash_key(r.key_schema@, column.name)
            &&& r.attribute_definitions@.len() == 1
            &&& r.attribute_definitions@[0].attribute_name@ == column.name
            &&& is_type_of_key(r.attribute_definitions@[0].attribute_type, column.ty)
            &&& r.global_secondary_indexes is None
            &&& r.provisioned_throughput.read_capacity_units == 10
            &&& r.provisioned_throughput.write_capacity_units == 5
        }),
{
    let id = index.columns[0].column;
    let column = schema.tables@[id.table.0 as int]@.columns[id.index as int];
    assert(key_schema_views(r.key_schema@).len() == r.key_schema@.len());
    assert(key_schema_views(r.key_schema@)[0] == (column.name, KeyType::Hash));
    let definitions = r.attribute_definitions@;
    let attributes = Map::<Seq<char>, Type>::empty().insert(column.name, column.ty);
    assert(attributes.contains_key(column.name));
    assert(exists|i: int|
        0 <= i < definitions.len() && (#[trigger] definitions[i]).attribute_name@ == column.name);
    if definitions.len() > 1 {
        assert(attributes.contains_key(definitions[0].attribute_name@));
        assert(attributes.contains_key(definitions[1].attribute_name@));
        assert(definitions[0].attribute_name@ != definitions[1].attribute_name@);
    }
    assert(attributes.contains_key(definitions[0].attribute_name@));
}

pub proof fn lemma_scoped_parts(columns: Seq<IndexColumn>, scope: IndexScope)
    ensures
        scoped(columns, scope) == columns.filter_map(of_scope(scope)),
    decreases columns.len(),
{
    if columns.len() > 0 {
        lemma_scoped_parts(columns.drop_last(), scope);
    }
    assert(scoped(columns, scope) =~= columns.filter_map(of_scope(scope)));
}

/// The attribute that orders items within a partition, and its type: the column of the
/// local key if there is one, and a text attribute for several.
pub open spec fn range_of(table: TableView) -> Option<(Seq<char>, Type)> {
    let local = key_parts(table, IndexScope::Local);
    if local.len() == 0 {
        None
    } else if local.len() == 1 {
        let column = table.columns[local[0].index as int];
        Some((column.name, column.ty))
    } else {
        Some(("__sk"@, Type::String))
    }
}

/// Whether an attribute of that name and type is part of the key of the table or of one
/// of its plain indices.
pub open spec fn is_key_attribute(table: TableView, name: Seq<char>, ty: Type) -> bool {
    let partition = table.columns[key_parts(table, IndexScope::Partition)[0].index as int];
    ||| name == partition.name && ty == partition.ty
    ||| range_of(table) == Some((name, ty))
    ||| exists|i: int| #[trigger] is_index_attribute(table, i, name, ty)
}

/// Whether the attribute is the column of the plain index at place `i`.
pub open spec fn is_index_attribute(table: TableView, i: int, name: Seq<char>, ty: Type) -> bool {
    &&& 0 <= i < table.indices.len()
    &&& !table.indices[i].primary_key
    &&& !table.indices[i].unique
    &&& table.columns[table.indices[i].columns[0].column.index as int].name == name
    &&& table.columns[table.indices[i].columns[0].column.index as int].ty == ty
}

proof fn lemma_secondary_attributes(
    table: TableView,
    start: Map<Seq<char>, Type>,
    indices: Seq<IndexView>,
)
    requires
        indices.len() <= table.indices.len(),
        forall|i: int| 0 <= i < indices.len() ==> #[trigger] indices[i] == table.indices[i],
    ensures
        ({
            let all = secondary_attributes(table, start, indices);
            &&& forall|name: Seq<char>| #[trigger]
                start.contains_key(name) ==> all.contains_key(name)
            &&& forall|i: int, name: Seq<char>, ty: Type|
                0 <= i < indices.len() && #[trigger] is_index_attribute(table, i, name, ty)
                    ==> all.contains_key(name)
            &&& forall|name: Seq<char>| #[trigger]
                all.contains_key(name) ==> (start.contains_key(name) && all[name] == start[name])
                    || exists|i: int| #[trigger] is_index_attribute(table, i, name, all[name])
        }),
    decreases indices.len(),
{
    if indices.len() > 0 {
        let rest = indices.drop_last();
        assert forall|i: int| 0 <= i < rest.len() implies #[trigger] rest[i] == table.indices[i] by {
            assert(indices[i] == table.indices[i]);
        }
        lemma_secondary_attributes(table, start, rest);
        let n = indices.len() - 1;
        assert(indices[n] == table.indices[n]);
        let before = secondary_attributes(table, start, rest);
        let all = secondary_attributes(table, start, indices);
        assert forall|i: int, name: Seq<char>, ty: Type|
            0 <= i < indices.len() && #[trigger] is_index_attribute(table, i, name, ty) implies all.contains_key(
            name,
        ) by {
            if i < n {
                assert(before.contains_key(name));
            }
        }
        assert forall|name: Seq<char>| #[trigger] all.contains_key(name) implies (
        start.contains_key(name) && all[name] == start[name]) || exists|i: int|
            #[trigger] is_index_attribute(table, i, name, all[name]) by {
            let index = table.indices[n];
            if !index.primary_key && !index.unique && table.columns[index.columns[0].column.index as int].name
                == name {
                assert(is_index_attribute(table, n, name, all[name]));
            } else {
                assert(before.contains_key(name) && before[name] == all[name]);
            }
        }
    }
}

/// The request that creates a table is named like it and is for ten reads and five
/// writes. Its key is the partition's column and what orders items in a partition, if
/// anything does: the only column of the local key, or one attribute for several.
///
/// Each attribute that is part of that key, or of the key of a plain index, is defined
/// once, as text or as a number, and no other is.
pub proof fn law_table_is_keyed_as_declared(r: CreateTable, table: TableView)
    requires
        creates_table(r, table),
    ensures
        ({
            let partition = table.columns[key_parts(
                table,
                IndexScope::Partition,
            )[0].index as int];
            let keys = r.key_schema@;
            let definitions = r.attribute_definitions@;
            &&& r.table_name@ == table.name
            &&& r.provisioned_throughput.read_capacity_units == 10
            &&& r.provisioned_throughput.write_capacity_units == 5
            &&& keys.len() > 0
            &&& keys[0].attribute_name@ == partition.name
            &&& keys[0].key_type == KeyType::Hash
            &&& match range_of(table) {
                Some((name, _)) => keys.len() == 2 && keys[1].attribute_name@ == name
                    && keys[1].key_type == KeyType::Range,
                None => keys.len() == 1,
            }
            &&& forall|i: int, j: int|
                0 <= i < j < definitions.len() ==> (#[trigger] definitions[i]).attribute_name@ != (
                #[trigger] definitions[j]).attribute_name@
            &&& forall|i: int|
                0 <= i < definitions.len() ==> exists|ty: Type|
                    is_key_attribute(table, (#[trigger] definitions[i]).attribute_name@, ty)
                        && #[trigger] is_type_of_key(definitions[i].attribute_type, ty)
            &&& forall|name: Seq<char>, ty: Type| #[trigger]
                is_key_attribute(table, name, ty) ==> exists|i: int|
                    0 <= i < definitions.len() && (#[trigger] definitions[i]).attribute_name@
                        == name
        }),
{
    let columns = table.indices[table.key_index.index as int].columns;
    lemma_scoped_parts(columns, IndexScope::Partition);
    lemma_scoped_parts(columns, IndexScope::Local);
    let partition = table.columns[key_parts(table, IndexScope::Partition)[0].index as int];
    let views = key_schema_views(r.key_schema@);
    assert(views.len() == r.key_schema@.len());
    assert(views[0] == (partition.name, KeyType::Hash));
    match range_of(table) {
        Some((name, _)) => {
            assert(views.len() == 2);
            assert(views[1] == (name, KeyType::Range));
        },
        None => {
            assert(views.len() == 1);
        },
    }
    let definitions = r.attribute_definitions@;
    let attributes = defined_attributes(table);
    let start = crate::table_plan::key_attribute_types(table);
    lemma_secondary_attributes(table, start, table.indices);
    assert forall|i: int| 0 <= i < definitions.len() implies exists|ty: Type|
        is_key_attribute(table, (#[trigger] definitions[i]).attribute_name@, ty)
            && #[trigger] is_type_of_key(definitions[i].attribute_type, ty) by {
        let name = definitions[i].attribute_name@;
        assert(attributes.contains_key(name));
        let ty = attributes[name];
        assert(is_key_attribute(table, name, ty));
        assert(is_type_of_key(definitions[i].attribute_type, ty));
    }
    assert forall|name: Seq<char>, ty: Type| #[trigger]
        is_key_attribute(table, name, ty) implies exists|i: int|
        0 <= i < definitions.len() && (#[trigger] definitions[i]).attribute_name@ == name by {
        if start.contains_key(name) {
        } else {
            let i = choose|i: int| #[trigger] is_index_attribute(table, i, name, ty);
            assert(is_index_attribute(table, i, name, ty));
        }
        assert(attributes.contains_key(name));
    }
}

/// Whether values of the type can be part of a key.
pub open spec fn can_be_key(ty: Type) -> bool {
    match ty {
        Type::Bool | Type::I8 | Type::I16 | Type::I32 | Type::I64 => true,
        Type::String | Type::Id(_) | Type::Enum(_) => true,
        _ => false,
    }
}

/// Requests can be made for every table with one partition column whose other indices
/// are over single columns, if these columns are there and can be part of a key.
pub proof fn law_ordinary_tables_can_be_created(schema: Schema, table: TableView)
    requires
        table.key_index.index < table.indices.len(),
        key_parts(table, IndexScope::Partition).len() == 1,
        forall|i: int|
            0 <= i < table.columns.len() ==> can_be_key((#[trigger] table.columns[i]).ty),
        forall|k: int|
            0 <= k < table.indices[table.key_index.index as int].columns.len() ==> (
            #[trigger] table.indices[table.key_index.index as int].columns[k]).column.index
                < table.columns.len(),
        forall|i: int|
            0 <= i < table.indices.len() && !(#[trigger] table.indices[i]).primary_key ==> {
                let id = table.indices[i].columns[0].column;
                &&& table.indices[i].columns.len() == 1
                &&& id.table.0 < schema.tables@.len()
                &&& schema.tables@[id.table.0 as int]@ == table
                &&& id.index < table.columns.len()
            },
    ensures
        can_create(schema, table),
{
    let columns = table.indices[table.key_index.index as int].columns;
    lemma_scoped_parts(columns, IndexScope::Partition);
    lemma_scoped_parts(columns, IndexScope::Local);
    crate::table_plan::lemma_scoped(table, columns, IndexScope::Partition);
    crate::table_plan::lemma_scoped(table, columns, IndexScope::Local);
    let start = crate::table_plan::key_attribute_types(table);
    lemma_secondary_attributes(table, start, table.indices);
    let partition = key_parts(table, IndexScope::Partition);
    let local = key_parts(table, IndexScope::Local);
    assert(table.has_column(scoped(columns, IndexScope::Partition)[0]));
    if local.len() == 1 {
        assert(table.has_column(scoped(columns, IndexScope::Local)[0]));
    }
    assert forall|name: Seq<char>| #[trigger]
        defined_attributes(table).contains_key(name) implies crate::attribute::is_key_type(
        defined_attributes(table)[name],
    ) by {
        let ty = defined_attributes(table)[name];
        if start.contains_key(name) && ty == start[name] {
            assert(can_be_key(table.columns[partition[0].index as int].ty));
            if local.len() == 1 {
                assert(can_be_key(table.columns[local[0].index as int].ty));
            }
        } else {
            let i = choose|i: int| #[trigger] is_index_attribute(table, i, name, ty);
            assert(!table.indices[i].primary_key);
            assert(can_be_key(
                table.columns[table.indices[i].columns[0].column.index as int].ty,
            ));
        }
    }
    assert forall|i: int| 0 <= i < table.indices.len() implies crate::table_plan::index_fits(
        schema,
        table,
        #[trigger] table.indices[i],
    ) by {
        let index = table.indices[i];
        if !index.primary_key {
            assert(can_be_key(table.columns[index.columns[0].column.index as int].ty));
        }
    }
}

} // verus!

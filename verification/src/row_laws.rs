//! What lets rows of different models stand in one table.

use crate::app::{self, Field, Model, ModelId};
use crate::build_children::{
    child_fields, child_indices, child_key_fields, key_index_place, lemma_key_index_kept,
    lemma_key_index_place, lemma_with_key_column, model_column, with_key_column,
};
use crate::build_collection::{
    add_children, add_model_column, built, lemma_add_root, lemma_children_grow,
    lemma_columns_bound, named, table_ready, tag_model,
};
use crate::build_table::{
    BuildView, Capability, add_index, add_root, column_ids, lemma_add_indices, map_model,
    root_fields, root_prefix, storage_name,
};
use crate::build_tables::lemma_tags_table;
use crate::db::{ColumnView, IndexColumn, IndexOp, IndexScope, TableView};
use crate::table_plan::scoped;
use vstd::prelude::*;

verus! {

/// Whether the column is that of a field of the root's primary key which is
/// always there.
pub open spec fn is_root_key(root: Model, prefixed: bool, column: ColumnView) -> bool {
    exists|k: int| #[trigger] is_key_field(root, prefixed, column, k)
}

/// Whether the column is that of the given field, which is part of the root's
/// primary key and always there.
pub open spec fn is_key_field(root: Model, prefixed: bool, column: ColumnView, k: int) -> bool {
    &&& 0 <= k < root.fields@.len()
    &&& root.fields@[k].ty is Primitive
    &&& root.fields@[k].primary_key
    &&& !root.fields@[k].nullable
    &&& column.name == storage_name(root_prefix(root, prefixed), root.fields@[k].name@)
}

/// Whether every column from `from` on may be left out of a row, or is there in
/// the rows of all models.
pub open spec fn rows_fit(table: TableView, from: int, root: Model, prefixed: bool) -> bool {
    forall|i: int|
        from <= i < table.columns.len() ==> ((#[trigger] table.columns[i]).nullable
            || table.columns[i].name == "__model"@ || is_root_key(root, prefixed, table.columns[i]))
}

proof fn lemma_root_rows_fit(s: BuildView, root: Model, prefixed: bool, n: int)
    requires
        0 <= n <= root.fields@.len(),
    ensures
        ({
            let t = root_fields(s, root.fields@.take(n), root_prefix(root, prefixed), true);
            rows_fit(t.table, s.table.columns.len() as int, root, prefixed)
                && s.table.columns.len() <= t.table.columns.len()
        }),
    decreases n,
{
    let fields = root.fields@;
    let prefix = root_prefix(root, prefixed);
    if n > 0 {
        let u = root_fields(s, fields.take(n - 1), prefix, true);
        let t = root_fields(s, fields.take(n), prefix, true);
        lemma_root_rows_fit(s, root, prefixed, n - 1);
        assert(fields.take(n).drop_last() =~= fields.take(n - 1));
        assert(fields.take(n).last() == fields[n - 1]);
        assert forall|i: int| s.table.columns.len() <= i < t.table.columns.len() implies ((
        #[trigger] t.table.columns[i]).nullable || t.table.columns[i].name == "__model"@
            || is_root_key(root, prefixed, t.table.columns[i])) by {
            if i < u.table.columns.len() {
                assert(t.table.columns[i] == u.table.columns[i]);
            } else if !t.table.columns[i].nullable {
                assert(is_key_field(root, prefixed, t.table.columns[i], n - 1));
            }
        }
    }
}

proof fn lemma_child_rows_fit(
    s: BuildView,
    model: ModelId,
    fields: Seq<Field>,
    prefix: Seq<char>,
    from: int,
    root: Model,
    prefixed: bool,
)
    requires
        0 <= from,
        rows_fit(s.table, from, root, prefixed),
    ensures
        rows_fit(child_fields(s, model, fields, prefix).table, from, root, prefixed),
    decreases fields.len(),
{
    if fields.len() > 0 {
        let u = child_fields(s, model, fields.drop_last(), prefix);
        let t = child_fields(s, model, fields, prefix);
        lemma_child_rows_fit(s, model, fields.drop_last(), prefix, from, root, prefixed);
        assert forall|i: int| from <= i < t.table.columns.len() implies ((
        #[trigger] t.table.columns[i]).nullable || t.table.columns[i].name == "__model"@
            || is_root_key(root, prefixed, t.table.columns[i])) by {
            if i < u.table.columns.len() {
                assert(t.table.columns[i] == u.table.columns[i]);
            }
        }
    }
}

proof fn lemma_children_rows_fit(
    s: BuildView,
    children: Seq<&Model>,
    from: int,
    root: Model,
    prefixed: bool,
)
    requires
        0 <= from,
        rows_fit(s.table, from, root, prefixed),
    ensures
        rows_fit(add_children(s, children, root.id).table, from, root, prefixed),
    decreases children.len(),
{
    if children.len() > 0 {
        let u = add_children(s, children.drop_last(), root.id);
        let model = *children.last();
        lemma_children_rows_fit(s, children.drop_last(), from, root, prefixed);
        lemma_child_rows_fit(
            u,
            model.id,
            model.fields@,
            model.name.snake_case@,
            from,
            root,
            prefixed,
        );
        lemma_columns_bound(u, model, root.id);
    }
}

/// In a table with children, a column that may not be null is either the one for
/// the model name or that of a field of the root's primary key: everything else
/// can be left out of the rows of the models that it does not belong to.
pub proof fn law_only_shared_columns_are_required(
    s: BuildView,
    db: Capability,
    prefixed: bool,
    root: Model,
    children: Seq<&Model>,
)
    requires
        children.len() > 0,
    ensures
        rows_fit(
            built(s, db, prefixed, root, children).table,
            s.table.columns.len() as int,
            root,
            prefixed,
        ),
{
    let from = s.table.columns.len() as int;
    let fields = root.fields@;
    let a = add_root(s, root, prefixed, true);
    assert(fields.take(fields.len() as int) =~= fields);
    lemma_root_rows_fit(s, root, prefixed, fields.len() as int);
    lemma_add_indices(
        map_model(root_fields(s, fields, root_prefix(root, prefixed), true), root),
        root.id,
        root.indices@,
    );
    assert(rows_fit(a.table, from, root, prefixed));
    let column = model_column(a.table, db, root, children);
    let c = add_model_column(a, db, root, children);
    assert forall|i: int| from <= i < c.table.columns.len() implies ((
    #[trigger] c.table.columns[i]).nullable || c.table.columns[i].name == "__model"@
        || is_root_key(root, prefixed, c.table.columns[i])) by {
        if i < a.table.columns.len() {
            assert(c.table.columns[i] == a.table.columns[i]);
        }
    }
    lemma_children_rows_fit(c, children, from, root, prefixed);
    let d = add_children(c, children, root.id);
    let e = BuildView { table: named(d.table), ..d };
    lemma_tags_table(tag_model(e, root, column.id), children, column.id);
}

/// The columns of the index over the primary key.
pub open spec fn key_index_columns(table: TableView) -> Seq<IndexColumn> {
    table.indices[key_index_place(table.indices)->0].columns
}

/// Whether the primary key of `t` is that of `s` with columns of the local key added.
pub open spec fn key_extended(s: TableView, t: TableView) -> bool {
    let before = key_index_columns(s);
    let after = key_index_columns(t);
    &&& key_index_place(t.indices) == key_index_place(s.indices)
    &&& before.is_prefix_of(after)
    &&& forall|j: int| before.len() <= j < after.len() ==> (#[trigger] after[j]).scope
        == IndexScope::Local
    &&& t.key_columns == s.key_columns + column_ids(after.skip(before.len() as int))
}

proof fn lemma_key_extended_refl(s: TableView)
    ensures
        key_extended(s, s),
{
    let columns = key_index_columns(s);
    assert(s.key_columns + column_ids(columns.skip(columns.len() as int)) =~= s.key_columns);
}

proof fn lemma_key_extended_trans(s: TableView, t: TableView, u: TableView)
    requires
        key_extended(s, t),
        key_extended(t, u),
    ensures
        key_extended(s, u),
{
    let a = key_index_columns(s);
    let b = key_index_columns(t);
    let c = key_index_columns(u);
    assert forall|j: int| a.len() <= j < c.len() implies (#[trigger] c[j]).scope
        == IndexScope::Local by {
        if j < b.len() {
            assert(b[j] == c[j]);
        }
    }
    assert(column_ids(c.skip(a.len() as int)) =~= column_ids(b.skip(a.len() as int)) + column_ids(
        c.skip(b.len() as int),
    ));
    assert(u.key_columns =~= s.key_columns + column_ids(c.skip(a.len() as int)));
}

proof fn lemma_push_extends_key(table: TableView, column: IndexColumn)
    requires
        key_index_place(table.indices) is Some,
        column.scope == IndexScope::Local,
    ensures
        key_extended(table, with_key_column(table, column)),
{
    let t = with_key_column(table, column);
    lemma_key_index_place(table.indices);
    lemma_with_key_column(table, column);
    let before = key_index_columns(table);
    let after = key_index_columns(t);
    assert(after =~= before.push(column));
    assert(column_ids(after.skip(before.len() as int)) =~= seq![column.column]);
    assert(t.key_columns =~= table.key_columns + column_ids(after.skip(before.len() as int)));
}

proof fn lemma_key_fields_extend(
    s: BuildView,
    model: ModelId,
    root: ModelId,
    fields: Seq<app::IndexField>,
)
    requires
        key_index_place(s.table.indices) is Some,
    ensures
        key_extended(s.table, child_key_fields(s, model, root, fields).table),
    decreases fields.len(),
{
    if fields.len() == 0 {
        lemma_key_extended_refl(s.table);
    } else {
        let u = child_key_fields(s, model, root, fields.drop_last());
        let t = child_key_fields(s, model, root, fields);
        let field = fields.last();
        lemma_key_fields_extend(s, model, root, fields.drop_last());
        if u.mapping[model].is_linked(field.field) {
        } else {
            lemma_push_extends_key(
                u.table,
                IndexColumn {
                    column: u.mapping[model].column_of(field.field.index as int),
                    op: field.op,
                    scope: IndexScope::Local,
                },
            );
            lemma_key_extended_trans(s.table, u.table, t.table);
        }
    }
}

proof fn lemma_add_index_extends(s: BuildView, model: ModelId, index: app::Index)
    requires
        key_index_place(s.table.indices) is Some,
        !index.primary_key,
    ensures
        key_extended(s.table, add_index(s, model, index).table),
{
    let t = add_index(s, model, index);
    lemma_key_index_place(s.table.indices);
    lemma_key_index_kept(s.table.indices, t.table.indices);
    let columns = key_index_columns(s.table);
    assert(key_index_columns(t.table) == columns);
    assert(s.table.key_columns + column_ids(columns.skip(columns.len() as int))
        =~= s.table.key_columns);
}

proof fn lemma_child_indices_extend(
    s: BuildView,
    model: ModelId,
    root: ModelId,
    indices: Seq<app::Index>,
)
    requires
        key_index_place(s.table.indices) is Some,
    ensures
        key_extended(s.table, child_indices(s, model, root, indices).table),
    decreases indices.len(),
{
    if indices.len() == 0 {
        lemma_key_extended_refl(s.table);
    } else {
        let u = child_indices(s, model, root, indices.drop_last());
        let t = child_indices(s, model, root, indices);
        lemma_child_indices_extend(s, model, root, indices.drop_last());
        if indices.last().primary_key {
            lemma_key_fields_extend(u, model, root, indices.last().fields@);
        } else {
            lemma_add_index_extends(u, model, indices.last());
        }
        lemma_key_extended_trans(s.table, u.table, t.table);
    }
}

proof fn lemma_child_fields_key(s: BuildView, model: ModelId, fields: Seq<Field>, prefix: Seq<char>)
    ensures
        child_fields(s, model, fields, prefix).table.indices == s.table.indices,
        child_fields(s, model, fields, prefix).table.key_columns == s.table.key_columns,
    decreases fields.len(),
{
    if fields.len() > 0 {
        lemma_child_fields_key(s, model, fields.drop_last(), prefix);
    }
}

proof fn lemma_children_extend(s: BuildView, children: Seq<&Model>, root: ModelId)
    requires
        key_index_place(s.table.indices) is Some,
    ensures
        key_extended(s.table, add_children(s, children, root).table),
    decreases children.len(),
{
    if children.len() == 0 {
        lemma_key_extended_refl(s.table);
    } else {
        let u = add_children(s, children.drop_last(), root);
        let t = add_children(s, children, root);
        let model = *children.last();
        lemma_children_extend(s, children.drop_last(), root);
        lemma_child_fields_key(u, model.id, model.fields@, model.name.snake_case@);
        let b = map_model(
            child_fields(u, model.id, model.fields@, model.name.snake_case@),
            model,
        );
        lemma_child_indices_extend(b, model.id, root, model.indices@);
        assert(key_extended(u.table, t.table));
        lemma_key_extended_trans(s.table, u.table, t.table);
    }
}

proof fn lemma_named_key(table: TableView)
    requires
        key_index_place(table.indices) is Some,
    ensures
        key_extended(table, named(table)),
{
    let t = named(table);
    lemma_key_index_place(table.indices);
    lemma_key_index_kept(table.indices, t.indices);
    let columns = key_index_columns(table);
    assert(key_index_columns(t) == columns);
    assert(table.key_columns + column_ids(columns.skip(columns.len() as int))
        =~= table.key_columns);
}

/// The children of a collection add to the root's key only columns of the local
/// key, of which the model name is the first: what picks the partition is the
/// root's alone.
pub proof fn law_children_extend_local_key(
    s: BuildView,
    db: Capability,
    prefixed: bool,
    root: Model,
    children: Seq<&Model>,
)
    requires
        table_ready(s, root, children),
        children.len() > 0,
        built(s, db, prefixed, root, children).table.columns.len() <= usize::MAX,
    ensures
        ({
            let a = add_root(s, root, prefixed, true);
            let t = built(s, db, prefixed, root, children);
            let n = key_index_columns(a.table).len() as int;
            &&& key_index_place(a.table.indices) is Some
            &&& key_extended(a.table, t.table)
            &&& n < key_index_columns(t.table).len()
            &&& t.table.column(key_index_columns(t.table)[n].column).name == "__model"@
        }),
{
    let a = add_root(s, root, prefixed, true);
    let t = built(s, db, prefixed, root, children);
    let column = model_column(a.table, db, root, children);
    let c = add_model_column(a, db, root, children);
    let d = add_children(c, children, root.id);
    let e = BuildView { table: named(d.table), ..d };
    lemma_tags_table(tag_model(e, root, column.id), children, column.id);
    lemma_children_grow(c, children, root.id);
    lemma_add_root(s, root, prefixed, true);
    lemma_key_index_place(a.table.indices);
    let u = TableView { columns: a.table.columns.push(column), ..a.table };
    let added = IndexColumn { column: column.id, op: IndexOp::Eq, scope: IndexScope::Local };
    lemma_push_extends_key(u, added);
    assert(key_extended(a.table, c.table));
    lemma_children_extend(c, children, root.id);
    lemma_named_key(d.table);
    lemma_key_extended_trans(a.table, c.table, d.table);
    lemma_key_extended_trans(a.table, d.table, e.table);
    let n = key_index_columns(a.table).len() as int;
    lemma_key_index_place(u.indices);
    assert(key_index_columns(c.table) =~= key_index_columns(a.table).push(added));
    assert(key_index_columns(c.table)[n] == added);
    assert(key_index_columns(d.table)[n] == added);
    lemma_children_keep_columns(c, children, root.id);
    let at = a.table.columns.len() as int;
    assert(c.table.columns[at] == column);
    assert(d.table.columns.subrange(0, c.table.columns.len() as int)[at] == column);
}

pub proof fn lemma_children_keep_columns(s: BuildView, children: Seq<&Model>, root: ModelId)
    ensures
        s.table.columns.is_prefix_of(add_children(s, children, root).table.columns),
    decreases children.len(),
{
    if children.len() > 0 {
        let u = add_children(s, children.drop_last(), root);
        let model = *children.last();
        lemma_children_keep_columns(s, children.drop_last(), root);
        lemma_child_fields_keep(u, model.id, model.fields@, model.name.snake_case@);
        lemma_columns_bound(u, model, root);
    }
}

proof fn lemma_child_fields_keep(
    s: BuildView,
    model: ModelId,
    fields: Seq<Field>,
    prefix: Seq<char>,
)
    ensures
        s.table.columns.is_prefix_of(child_fields(s, model, fields, prefix).table.columns),
    decreases fields.len(),
{
    if fields.len() > 0 {
        lemma_child_fields_keep(s, model, fields.drop_last(), prefix);
    }
}

proof fn lemma_local_not_partition(columns: Seq<IndexColumn>, n: int)
    requires
        0 <= n <= columns.len(),
        forall|j: int| n <= j < columns.len() ==> (#[trigger] columns[j]).scope
            == IndexScope::Local,
    ensures
        scoped(columns, IndexScope::Partition) == scoped(columns.take(n), IndexScope::Partition),
    decreases columns.len(),
{
    if n == columns.len() {
        assert(columns.take(n) =~= columns);
    } else {
        let rest = columns.drop_last();
        assert forall|j: int| n <= j < rest.len() implies (#[trigger] rest[j]).scope
            == IndexScope::Local by {
            assert(rest[j] == columns[j]);
        }
        lemma_local_not_partition(rest, n);
        assert(rest.take(n) =~= columns.take(n));
        assert(columns[columns.len() - 1].scope == IndexScope::Local);
    }
}

/// The partition of a table with children is picked by the same columns as that of
/// the root alone.
pub proof fn law_children_keep_partition(
    s: BuildView,
    db: Capability,
    prefixed: bool,
    root: Model,
    children: Seq<&Model>,
)
    requires
        table_ready(s, root, children),
        children.len() > 0,
        built(s, db, prefixed, root, children).table.columns.len() <= usize::MAX,
    ensures
        scoped(
            key_index_columns(built(s, db, prefixed, root, children).table),
            IndexScope::Partition,
        ) == scoped(
            key_index_columns(add_root(s, root, prefixed, true).table),
            IndexScope::Partition,
        ),
{
    law_children_extend_local_key(s, db, prefixed, root, children);
    let before = key_index_columns(add_root(s, root, prefixed, true).table);
    let after = key_index_columns(built(s, db, prefixed, root, children).table);
    lemma_local_not_partition(after, before.len() as int);
    assert(after.take(before.len() as int) =~= before);
}

} // verus!

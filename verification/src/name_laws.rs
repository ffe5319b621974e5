//! What tells the rows of different models apart.

use crate::app::{self, Field, Model, ModelId};
use crate::build_children::{
    add_child, child_fields, child_indices, child_key_fields, model_column,
};
use crate::build_collection::{
    add_children, add_model_column, built, lemma_add_root, lemma_children_grow, named, table_ready, tag_model,
    tag_models,
};
use crate::build_mapping::{Lowering, lower_fields};
use crate::build_table::{
    BuildView, Capability, add_indices, add_root, lemma_add_indices, map_model, root_fields,
    root_prefix,
};
use crate::build_tables::{lemma_built, lemma_tags_table};
use crate::db::{ColumnId, TableView};
use crate::delimited::{self, delimiter_free};
use crate::keys::{sort_key_text, strings};
use crate::mapping::ModelView;
use crate::row_laws::lemma_children_keep_columns;
use crate::stmt::{Expr, Value, ValueView};
use crate::table_laws::distinct_models;
use vstd::prelude::*;

verus! {

/// Whether the model's rows carry its name in the given column.
pub open spec fn carries_name(s: BuildView, model: Model, column: ColumnId) -> bool {
    let mapping = s.mapping[model.id];
    &&& mapping.model_column == Some(column)
    &&& mapping.columns.len() > 0
    &&& mapping.columns.last() == column
    &&& mapping.model_to_table.len() > 0
    &&& mapping.model_to_table.last() == Expr::Value(Value::String(model.name.camel_case))
}

proof fn lemma_tags_carry(s: BuildView, models: Seq<&Model>, column: ColumnId)
    requires
        forall|j: int, k: int|
            0 <= j < k < models.len() ==> (#[trigger] models[j]).id != (#[trigger] models[k]).id,
    ensures
        forall|k: int|
            0 <= k < models.len() ==> carries_name(
                tag_models(s, models, column),
                *(#[trigger] models[k]),
                column,
            ),
        forall|m: ModelId|
            (forall|k: int| 0 <= k < models.len() ==> (#[trigger] models[k]).id != m)
                ==> #[trigger] tag_models(s, models, column).mapping[m] == s.mapping[m],
    decreases models.len(),
{
    if models.len() > 0 {
        let rest = models.drop_last();
        let u = tag_models(s, rest, column);
        let t = tag_models(s, models, column);
        let n = models.len() - 1;
        assert forall|j: int, k: int| 0 <= j < k < rest.len() implies (#[trigger] rest[j]).id != (
        #[trigger] rest[k]).id by {
            assert(rest[j] == models[j] && rest[k] == models[k]);
        }
        lemma_tags_carry(s, rest, column);
        assert forall|k: int| 0 <= k < models.len() implies carries_name(
            t,
            *(#[trigger] models[k]),
            column,
        ) by {
            if k < n {
                assert(rest[k] == models[k]);
                assert(carries_name(u, *rest[k], column));
                assert(models[k].id != models[n].id);
                assert(t.mapping[models[k].id] == u.mapping[models[k].id]);
            }
        }
        assert forall|m: ModelId|
            (forall|k: int| 0 <= k < models.len() ==> (#[trigger] models[k]).id != m) implies #[trigger] t.mapping[m]
            == s.mapping[m] by {
            assert forall|k: int| 0 <= k < rest.len() implies (#[trigger] rest[k]).id != m by {
                assert(rest[k] == models[k]);
            }
            assert(u.mapping[m] == s.mapping[m]);
            assert(models[n].id != m);
        }
    }
}

/// In a table with children, the rows of every model carry the model's name in one
/// and the same column, so that it is known which model a row belongs to.
pub proof fn law_rows_carry_model_name(
    s: BuildView,
    db: Capability,
    prefixed: bool,
    root: Model,
    children: Seq<&Model>,
)
    requires
        children.len() > 0,
        distinct_models(root, children),
        add_root(s, root, prefixed, true).table.columns.len() < usize::MAX,
    ensures
        ({
            let t = built(s, db, prefixed, root, children);
            let column = model_column(
                add_root(s, root, prefixed, true).table,
                db,
                root,
                children,
            ).id;
            &&& t.table.has_column(column)
            &&& t.table.column(column).name == "__model"@
            &&& !t.table.column(column).nullable
            &&& carries_name(t, root, column)
            &&& forall|k: int|
                0 <= k < children.len() ==> carries_name(t, *(#[trigger] children[k]), column)
        }),
{
    let a = add_root(s, root, prefixed, true);
    let t = built(s, db, prefixed, root, children);
    let column = model_column(a.table, db, root, children);
    let c = add_model_column(a, db, root, children);
    let d = add_children(c, children, root.id);
    let e = BuildView { table: named(d.table), ..d };
    let f = tag_model(e, root, column.id);
    lemma_tags_table(f, children, column.id);
    lemma_tags_carry(f, children, column.id);
    assert(carries_name(f, root, column.id));
    assert(t.mapping[root.id] == f.mapping[root.id]);
    lemma_children_keep_columns(c, children, root.id);
    let at = a.table.columns.len() as int;
    assert(c.table.columns[at] == column);
    assert(d.table.columns.subrange(0, c.table.columns.len() as int)[at] == column);
}

/// Whether the rows of the root and of all the children carry the name of their model
/// in one and the same column of the table, which is called so and never null.
pub open spec fn names_shared(s: BuildView, root: Model, children: Seq<&Model>) -> bool {
    match s.mapping[root.id].model_column {
        Some(column) => {
            &&& column.table == s.table.id
            &&& s.table.has_column(column)
            &&& s.table.column(column).name == "__model"@
            &&& !s.table.column(column).nullable
            &&& forall|k: int|
                0 <= k < children.len() ==> s.mapping[(#[trigger] children[k]).id].model_column
                    == Some(column)
        },
        None => false,
    }
}

/// A table with children has a column that its models share for their names.
pub proof fn lemma_names_shared(
    s: BuildView,
    db: Capability,
    prefixed: bool,
    root: Model,
    children: Seq<&Model>,
)
    requires
        children.len() > 0,
        distinct_models(root, children),
        table_ready(s, root, children),
        built(s, db, prefixed, root, children).table.columns.len() <= usize::MAX,
    ensures
        names_shared(built(s, db, prefixed, root, children), root, children),
{
    let a = add_root(s, root, prefixed, true);
    let t = built(s, db, prefixed, root, children);
    let column = model_column(a.table, db, root, children).id;
    let b = add_model_column(a, db, root, children);
    let c = add_children(b, children, root.id);
    let d = BuildView { table: named(c.table), ..c };
    lemma_tags_table(tag_model(d, root, column), children, column);
    lemma_children_grow(b, children, root.id);
    law_rows_carry_model_name(s, db, prefixed, root, children);
    lemma_add_root(s, root, prefixed, true);
    lemma_built(s, db, prefixed, root, children);
    assert(carries_name(t, root, column));
    assert forall|k: int| 0 <= k < children.len() implies t.mapping[(
    #[trigger] children[k]).id].model_column == Some(column) by {
        assert(carries_name(t, *children[k], column));
    }
}

/// Whether every model whose rows carry its name has a path.
pub open spec fn names_need_paths(mapping: Map<ModelId, ModelView>) -> bool {
    forall|m: ModelId| #[trigger]
        mapping.contains_key(m) && mapping[m].model_column is Some ==> mapping[m].path.len() > 0
}

/// Whether `t` knows of every model the path and the name column that `s` knows.
pub open spec fn names_kept(s: BuildView, t: BuildView) -> bool {
    forall|m: ModelId|
        (#[trigger] t.mapping[m]).model_column == s.mapping[m].model_column && t.mapping[m].path
            == s.mapping[m].path
}

proof fn lemma_names_kept_trans(s: BuildView, t: BuildView, u: BuildView)
    requires
        names_kept(s, t),
        names_kept(t, u),
    ensures
        names_kept(s, u),
{
    assert forall|m: ModelId|
        (#[trigger] u.mapping[m]).model_column == s.mapping[m].model_column && u.mapping[m].path
            == s.mapping[m].path by {
        assert(t.mapping[m].path == s.mapping[m].path);
    }
}

proof fn lemma_root_fields_names(
    s: BuildView,
    fields: Seq<Field>,
    prefix: Option<Seq<char>>,
    has_children: bool,
)
    ensures
        names_kept(s, root_fields(s, fields, prefix, has_children)),
    decreases fields.len(),
{
    if fields.len() > 0 {
        let u = root_fields(s, fields.drop_last(), prefix, has_children);
        lemma_root_fields_names(s, fields.drop_last(), prefix, has_children);
        lemma_names_kept_trans(s, u, root_fields(s, fields, prefix, has_children));
    }
}

proof fn lemma_child_fields_names(
    s: BuildView,
    model: ModelId,
    fields: Seq<Field>,
    prefix: Seq<char>,
)
    ensures
        names_kept(s, child_fields(s, model, fields, prefix)),
    decreases fields.len(),
{
    if fields.len() > 0 {
        let u = child_fields(s, model, fields.drop_last(), prefix);
        lemma_child_fields_names(s, model, fields.drop_last(), prefix);
        lemma_names_kept_trans(s, u, child_fields(s, model, fields, prefix));
    }
}

proof fn lemma_lower_names(table: TableView, s: Lowering, fields: Seq<Field>)
    ensures
        lower_fields(table, s, fields).mapping.model_column == s.mapping.model_column,
        lower_fields(table, s, fields).mapping.path == s.mapping.path,
    decreases fields.len(),
{
    if fields.len() > 0 {
        lemma_lower_names(table, s, fields.drop_last());
    }
}

proof fn lemma_map_model_names(s: BuildView, model: Model)
    ensures
        names_kept(s, map_model(s, model)),
{
    let start = Lowering {
        mapping: s.mapping[model.id],
        columns: Seq::empty(),
        exprs: Seq::empty(),
    };
    lemma_lower_names(s.table, start, model.fields@);
}

proof fn lemma_key_fields_names(
    s: BuildView,
    model: ModelId,
    root: ModelId,
    fields: Seq<app::IndexField>,
)
    ensures
        names_kept(s, child_key_fields(s, model, root, fields)),
    decreases fields.len(),
{
    if fields.len() > 0 {
        let u = child_key_fields(s, model, root, fields.drop_last());
        lemma_key_fields_names(s, model, root, fields.drop_last());
        lemma_names_kept_trans(s, u, child_key_fields(s, model, root, fields));
    }
}

proof fn lemma_child_indices_names(
    s: BuildView,
    model: ModelId,
    root: ModelId,
    indices: Seq<app::Index>,
)
    ensures
        names_kept(s, child_indices(s, model, root, indices)),
    decreases indices.len(),
{
    if indices.len() > 0 {
        let u = child_indices(s, model, root, indices.drop_last());
        let t = child_indices(s, model, root, indices);
        lemma_child_indices_names(s, model, root, indices.drop_last());
        if indices.last().primary_key {
            lemma_key_fields_names(u, model, root, indices.last().fields@);
        }
        lemma_names_kept_trans(s, u, t);
    }
}

proof fn lemma_children_names(s: BuildView, children: Seq<&Model>, root: ModelId)
    ensures
        names_kept(s, add_children(s, children, root)),
    decreases children.len(),
{
    if children.len() > 0 {
        let u = add_children(s, children.drop_last(), root);
        let model = *children.last();
        let a = child_fields(u, model.id, model.fields@, model.name.snake_case@);
        let b = map_model(a, model);
        let t = add_child(u, model, root);
        lemma_children_names(s, children.drop_last(), root);
        lemma_child_fields_names(u, model.id, model.fields@, model.name.snake_case@);
        lemma_map_model_names(a, model);
        lemma_child_indices_names(b, model.id, root, model.indices@);
        lemma_names_kept_trans(s, u, a);
        lemma_names_kept_trans(s, a, b);
        lemma_names_kept_trans(s, b, t);
    }
}

proof fn lemma_root_names(s: BuildView, root: Model, prefixed: bool, has_children: bool)
    ensures
        names_kept(s, add_root(s, root, prefixed, has_children)),
{
    let prefix = root_prefix(root, prefixed);
    let a = root_fields(s, root.fields@, prefix, has_children);
    let b = map_model(a, root);
    lemma_root_fields_names(s, root.fields@, prefix, has_children);
    lemma_map_model_names(a, root);
    lemma_add_indices(b, root.id, root.indices@);
    lemma_names_kept_trans(s, a, b);
    lemma_names_kept_trans(s, b, add_indices(b, root.id, root.indices@));
}

/// Whether the model is the root or one of the children.
pub open spec fn is_one_of(root: Model, children: Seq<&Model>, m: ModelId) -> bool {
    m == root.id || exists|k: int| 0 <= k < children.len() && (#[trigger] children[k]).id == m
}

proof fn lemma_tags_names(s: BuildView, models: Seq<&Model>, column: ColumnId, m: ModelId)
    ensures
        tag_models(s, models, column).mapping[m].path == s.mapping[m].path,
        (forall|k: int| 0 <= k < models.len() ==> (#[trigger] models[k]).id != m) ==> tag_models(
            s,
            models,
            column,
        ).mapping[m].model_column == s.mapping[m].model_column,
    decreases models.len(),
{
    if models.len() > 0 {
        let rest = models.drop_last();
        lemma_tags_names(s, rest, column, m);
        if forall|k: int| 0 <= k < models.len() ==> (#[trigger] models[k]).id != m {
            assert forall|k: int| 0 <= k < rest.len() implies (#[trigger] rest[k]).id != m by {
                assert(rest[k] == models[k]);
            }
            assert(models[models.len() - 1].id != m);
        }
    }
}

/// Building a table keeps all paths, and the name columns of models of other tables.
proof fn lemma_built_names(
    s: BuildView,
    db: Capability,
    prefixed: bool,
    root: Model,
    children: Seq<&Model>,
    m: ModelId,
)
    ensures
        ({
            let t = built(s, db, prefixed, root, children);
            &&& t.mapping[m].path == s.mapping[m].path
            &&& children.len() == 0 || !is_one_of(root, children, m) ==> t.mapping[m].model_column
                == s.mapping[m].model_column
        }),
{
    let a = add_root(s, root, prefixed, children.len() > 0);
    lemma_root_names(s, root, prefixed, children.len() > 0);
    assert(a.mapping[m].path == s.mapping[m].path);
    if children.len() > 0 {
        let column = model_column(a.table, db, root, children).id;
        let c = add_model_column(a, db, root, children);
        let d = add_children(c, children, root.id);
        let e = BuildView { table: named(d.table), ..d };
        let f = tag_model(e, root, column);
        lemma_children_names(c, children, root.id);
        assert(d.mapping[m].path == a.mapping[m].path);
        lemma_tags_names(f, children, column, m);
        if !is_one_of(root, children, m) {
            assert(forall|k: int| 0 <= k < children.len() ==> (#[trigger] children[k]).id != m);
        }
    }
}

/// Only models with a path have a column for the model name, and building a table
/// keeps that so.
pub proof fn law_model_column_needs_path(
    s: BuildView,
    db: Capability,
    prefixed: bool,
    root: Model,
    children: Seq<&Model>,
)
    requires
        table_ready(s, root, children),
        built(s, db, prefixed, root, children).table.columns.len() <= usize::MAX,
        names_need_paths(s.mapping),
        children.len() > 0 ==> s.mapping[root.id].path.len() > 0,
        forall|k: int|
            0 <= k < children.len() ==> s.mapping[(#[trigger] children[k]).id].path.len() > 0,
    ensures
        names_need_paths(built(s, db, prefixed, root, children).mapping),
{
    let t = built(s, db, prefixed, root, children);
    lemma_built(s, db, prefixed, root, children);
    assert forall|m: ModelId| #[trigger]
        t.mapping.contains_key(m) && t.mapping[m].model_column is Some implies t.mapping[m].path.len()
        > 0 by {
        assert(s.mapping.contains_key(m));
        lemma_built_names(s, db, prefixed, root, children, m);
    }
}

/// Joined local keys are the same only if the texts that they are made of are,
/// so that rows that differ there, be it in the name of their model, never meet.
///
/// This needs a first text in each, and texts without the delimiter.
pub proof fn law_sort_key_tells_rows_apart(a: Seq<ValueView>, b: Seq<ValueView>)
    requires
        strings(a).len() > 0,
        strings(b).len() > 0,
        forall|i: int| 0 <= i < strings(a).len() ==> delimiter_free(#[trigger] strings(a)[i]),
        forall|i: int| 0 <= i < strings(b).len() ==> delimiter_free(#[trigger] strings(b)[i]),
    ensures
        sort_key_text(a) == sort_key_text(b) ==> strings(a) == strings(b),
{
    delimited::law_composite_key_round_trip(strings(a));
    delimited::law_composite_key_round_trip(strings(b));
}

} // verus!

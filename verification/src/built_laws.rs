//! What holds of every table once all tables are built.

use crate::app::{self, Model, ModelId};
use crate::build_children::{
    child_fields, child_indices, child_key_fields, key_index_place, lemma_key_index_kept,
    lemma_key_index_place, lemma_with_key_column, model_column, with_key_column,
};
use crate::build_collection::{
    add_children, add_model_column, built, child_fits, index_name, lemma_add_root,
    lemma_children_grow, named, table_ready, tag_model, tag_models,
};
use crate::build_schema::{SchemaView, numbered};
use crate::build_table::{
    BuildView, Capability, add_indices, add_root, all_placed, lemma_add_indices, map_model,
    placed, root_fields, root_prefix,
};
use crate::build_tables::{
    build_all, build_one, grown, lemma_built, lemma_grown_trans, lemma_stored_in,
    lemma_table_ready, lemma_tags_table, one_ready, schema_ready, stored_in,
};
use crate::column_laws::{
    aligned, child_named, law_columns_are_named_after_fields,
    law_every_column_has_an_expression, lemma_child_named_kept, lemma_root_named_kept, root_named,
    same_places,
};
use crate::db::{ColumnId, IndexColumn, IndexId, IndexOp, IndexScope, TableId, TableView};
use crate::key_laws::{columns_numbered, law_columns_are_numbered};
use crate::mapping::ModelView;
use crate::name_laws::{lemma_names_shared, names_shared};
use crate::schema_laws::law_building_keeps_numbering;
use crate::table_laws::{
    distinct_models, field_lowered, law_fields_and_columns_agree, model_lowered,
};
use vstd::prelude::*;

verus! {

/// Whether every index's identifier names the table and the index's position.
pub open spec fn indices_numbered(table: TableView) -> bool {
    forall|i: int|
        0 <= i < table.indices.len() ==> (#[trigger] table.indices[i]).id == (IndexId {
            table: table.id,
            index: i as usize,
        })
}

/// Whether every index is named after its table and its columns.
pub open spec fn indices_named(table: TableView) -> bool {
    forall|i: int|
        0 <= i < table.indices.len() ==> (#[trigger] table.indices[i]).name == index_name(
            table,
            table.indices[i].columns,
        )
}

proof fn lemma_root_fields_indices(
    s: BuildView,
    fields: Seq<app::Field>,
    prefix: Option<Seq<char>>,
    has_children: bool,
)
    ensures
        root_fields(s, fields, prefix, has_children).table.indices == s.table.indices,
        root_fields(s, fields, prefix, has_children).table.id == s.table.id,
    decreases fields.len(),
{
    if fields.len() > 0 {
        lemma_root_fields_indices(s, fields.drop_last(), prefix, has_children);
    }
}

proof fn lemma_child_fields_indices(
    s: BuildView,
    model: ModelId,
    fields: Seq<app::Field>,
    prefix: Seq<char>,
)
    ensures
        child_fields(s, model, fields, prefix).table.indices == s.table.indices,
        child_fields(s, model, fields, prefix).table.id == s.table.id,
    decreases fields.len(),
{
    if fields.len() > 0 {
        lemma_child_fields_indices(s, model, fields.drop_last(), prefix);
    }
}

proof fn lemma_add_indices_numbered(s: BuildView, model: ModelId, indices: Seq<app::Index>)
    requires
        indices_numbered(s.table),
    ensures
        indices_numbered(add_indices(s, model, indices).table),
        add_indices(s, model, indices).table.id == s.table.id,
    decreases indices.len(),
{
    if indices.len() > 0 {
        lemma_add_indices_numbered(s, model, indices.drop_last());
    }
}

proof fn lemma_key_column_numbered(table: TableView, column: IndexColumn)
    requires
        indices_numbered(table),
        key_index_place(table.indices) is Some,
    ensures
        indices_numbered(with_key_column(table, column)),
        key_index_place(with_key_column(table, column).indices) is Some,
        with_key_column(table, column).id == table.id,
{
    let t = with_key_column(table, column);
    let place = key_index_place(table.indices)->0;
    lemma_key_index_place(table.indices);
    lemma_with_key_column(table, column);
    assert forall|i: int| 0 <= i < t.indices.len() implies (#[trigger] t.indices[i]).id == (
    IndexId { table: t.id, index: i as usize }) by {
        assert(table.indices[i].id == (IndexId { table: table.id, index: i as usize }));
        if i == place {
            assert(t.indices[i].id == table.indices[place].id);
        }
    }
}

proof fn lemma_key_fields_numbered(
    s: BuildView,
    model: ModelId,
    root: ModelId,
    fields: Seq<app::IndexField>,
)
    requires
        indices_numbered(s.table),
        key_index_place(s.table.indices) is Some,
    ensures
        indices_numbered(child_key_fields(s, model, root, fields).table),
        key_index_place(child_key_fields(s, model, root, fields).table.indices) is Some,
        child_key_fields(s, model, root, fields).table.id == s.table.id,
    decreases fields.len(),
{
    if fields.len() > 0 {
        let u = child_key_fields(s, model, root, fields.drop_last());
        let field = fields.last();
        lemma_key_fields_numbered(s, model, root, fields.drop_last());
        if !u.mapping[model].is_linked(field.field) {
            lemma_key_column_numbered(
                u.table,
                IndexColumn {
                    column: u.mapping[model].column_of(field.field.index as int),
                    op: field.op,
                    scope: IndexScope::Local,
                },
            );
        }
    }
}

proof fn lemma_child_indices_numbered(
    s: BuildView,
    model: ModelId,
    root: ModelId,
    indices: Seq<app::Index>,
)
    requires
        indices_numbered(s.table),
        key_index_place(s.table.indices) is Some,
    ensures
        indices_numbered(child_indices(s, model, root, indices).table),
        key_index_place(child_indices(s, model, root, indices).table.indices) is Some,
        child_indices(s, model, root, indices).table.id == s.table.id,
    decreases indices.len(),
{
    if indices.len() > 0 {
        let u = child_indices(s, model, root, indices.drop_last());
        lemma_child_indices_numbered(s, model, root, indices.drop_last());
        if indices.last().primary_key {
            lemma_key_fields_numbered(u, model, root, indices.last().fields@);
        } else {
            let t = child_indices(s, model, root, indices);
            lemma_key_index_kept(u.table.indices, t.table.indices);
        }
    }
}

proof fn lemma_children_indices(s: BuildView, children: Seq<&Model>, root: ModelId)
    requires
        indices_numbered(s.table),
        key_index_place(s.table.indices) is Some,
    ensures
        indices_numbered(add_children(s, children, root).table),
        key_index_place(add_children(s, children, root).table.indices) is Some,
        add_children(s, children, root).table.id == s.table.id,
    decreases children.len(),
{
    if children.len() > 0 {
        let u = add_children(s, children.drop_last(), root);
        let model = *children.last();
        let a = child_fields(u, model.id, model.fields@, model.name.snake_case@);
        lemma_children_indices(s, children.drop_last(), root);
        lemma_child_fields_indices(u, model.id, model.fields@, model.name.snake_case@);
        lemma_child_indices_numbered(map_model(a, model), model.id, root, model.indices@);
    }
}

/// Every index of a built table stands at the position that its identifier says, and
/// is named after the table and its columns.
pub proof fn law_indices_are_numbered_and_named(
    s: BuildView,
    db: Capability,
    prefixed: bool,
    root: Model,
    children: Seq<&Model>,
)
    requires
        table_ready(s, root, children),
        indices_numbered(s.table),
        built(s, db, prefixed, root, children).table.columns.len() <= usize::MAX,
    ensures
        indices_numbered(built(s, db, prefixed, root, children).table),
        indices_named(built(s, db, prefixed, root, children).table),
{
    let has_children = children.len() > 0;
    let fields = root_fields(s, root.fields@, root_prefix(root, prefixed), has_children);
    let a = add_root(s, root, prefixed, has_children);
    lemma_root_fields_indices(s, root.fields@, root_prefix(root, prefixed), has_children);
    lemma_add_indices_numbered(map_model(fields, root), root.id, root.indices@);
    if has_children {
        let column = model_column(a.table, db, root, children);
        let b = add_model_column(a, db, root, children);
        let c = add_children(b, children, root.id);
        let d = BuildView { table: named(c.table), ..c };
        lemma_tags_table(tag_model(d, root, column.id), children, column.id);
        lemma_children_grow(b, children, root.id);
        lemma_add_root(s, root, prefixed, has_children);
        lemma_key_index_place(a.table.indices);
        lemma_key_column_numbered(
            TableView { columns: a.table.columns.push(column), ..a.table },
            IndexColumn {
                column: column.id,
                op: IndexOp::Eq,
                scope: IndexScope::Local,
            },
        );
        lemma_children_indices(b, children, root.id);
        lemma_named(c.table);
    } else {
        lemma_named(a.table);
    }
}

proof fn lemma_named(table: TableView)
    requires
        indices_numbered(table),
    ensures
        indices_numbered(named(table)),
        indices_named(named(table)),
{
    let t = named(table);
    assert forall|i: int| 0 <= i < t.indices.len() implies (#[trigger] t.indices[i]).id == (
    IndexId { table: t.id, index: i as usize }) && t.indices[i].name == index_name(
        t,
        t.indices[i].columns,
    ) by {
        assert(table.indices[i].id == (IndexId { table: table.id, index: i as usize }));
    }
}

/// Whether no two models have the same identifier.
pub open spec fn models_differ(models: Seq<Model>) -> bool {
    forall|i: int, j: int|
        0 <= i < j < models.len() ==> (#[trigger] models[i]).id != (#[trigger] models[j]).id
}

/// Whether the model is one of the list that is stored in the table.
pub open spec fn is_member(
    models: Seq<Model>,
    mapping: Map<ModelId, ModelView>,
    table: TableId,
    roots: bool,
    model: Model,
) -> bool {
    &&& exists|j: int| 0 <= j < models.len() && #[trigger] models[j] == model
    &&& mapping[model.id].table == table
    &&& model.item_collection is None == roots
}

/// The models that are stored in a table are different ones of the list.
pub proof fn lemma_members(
    models: Seq<Model>,
    mapping: Map<ModelId, ModelView>,
    table: TableId,
    roots: bool,
)
    requires
        models_differ(models),
    ensures
        forall|k: int|
            0 <= k < stored_in(models, mapping, table, roots).len() ==> is_member(
                models,
                mapping,
                table,
                roots,
                *(#[trigger] stored_in(models, mapping, table, roots)[k]),
            ),
        forall|j: int, k: int|
            0 <= j < k < stored_in(models, mapping, table, roots).len() ==> (
            #[trigger] stored_in(models, mapping, table, roots)[j]).id != (#[trigger] stored_in(
                models,
                mapping,
                table,
                roots,
            )[k]).id,
    decreases models.len(),
{
    if models.len() > 0 {
        let before = models.drop_last();
        let rest = stored_in(before, mapping, table, roots);
        let all = stored_in(models, mapping, table, roots);
        assert forall|i: int, j: int| 0 <= i < j < before.len() implies (#[trigger] before[i]).id
            != (#[trigger] before[j]).id by {
            assert(before[i] == models[i] && before[j] == models[j]);
        }
        lemma_members(before, mapping, table, roots);
        let last = models.len() - 1;
        assert forall|k: int| 0 <= k < rest.len() implies is_member(
            models,
            mapping,
            table,
            roots,
            *(#[trigger] rest[k]),
        ) && rest[k].id != models[last].id by {
            let j = choose|j: int| 0 <= j < before.len() && #[trigger] before[j] == *rest[k];
            assert(is_member(before, mapping, table, roots, *rest[k]));
            assert(before[j] == models[j]);
            assert(models[j] == *rest[k]);
            assert(models[j].id != models[last].id);
        }
        assert forall|k: int| 0 <= k < all.len() implies is_member(
            models,
            mapping,
            table,
            roots,
            *(#[trigger] all[k]),
        ) by {
            if k < rest.len() {
                assert(all[k] == rest[k]);
            } else {
                assert(*all[k] == models[last]);
            }
        }
        assert forall|j: int, k: int| 0 <= j < k < all.len() implies (#[trigger] all[j]).id != (
        #[trigger] all[k]).id by {
            assert(all[j] == rest[j]);
            if k < rest.len() {
                assert(all[k] == rest[k]);
            }
        }
    }
}

/// The models of a table have different identifiers.
pub proof fn lemma_members_differ(
    models: Seq<Model>,
    mapping: Map<ModelId, ModelView>,
    table: TableId,
)
    requires
        models_differ(models),
        stored_in(models, mapping, table, true).len() > 0,
    ensures
        distinct_models(
            *stored_in(models, mapping, table, true)[0],
            stored_in(models, mapping, table, false),
        ),
{
    let roots = stored_in(models, mapping, table, true);
    let children = stored_in(models, mapping, table, false);
    lemma_members(models, mapping, table, true);
    lemma_members(models, mapping, table, false);
    let root = *roots[0];
    assert(is_member(models, mapping, table, true, *roots[0]));
    assert forall|k: int| 0 <= k < children.len() implies (#[trigger] children[k]).id != root.id by {
        assert(is_member(models, mapping, table, false, *children[k]));
        let i = choose|i: int| 0 <= i < models.len() && #[trigger] models[i] == root;
        let j = choose|j: int| 0 <= j < models.len() && #[trigger] models[j] == *children[k];
        if i < j {
            assert(models[i].id != models[j].id);
        } else if j < i {
            assert(models[j].id != models[i].id);
        }
    }
}

/// Whether `t` knows of each model that is not among those given what `s` knows.
pub open spec fn others_kept(
    s: BuildView,
    t: BuildView,
    root: ModelId,
    children: Seq<&Model>,
) -> bool {
    forall|m: ModelId|
        m != root && (forall|k: int| 0 <= k < children.len() ==> (#[trigger] children[k]).id != m)
            ==> #[trigger] t.mapping[m] == s.mapping[m]
}

proof fn lemma_root_fields_others(
    s: BuildView,
    fields: Seq<app::Field>,
    prefix: Option<Seq<char>>,
    has_children: bool,
    model: ModelId,
)
    requires
        forall|i: int| 0 <= i < fields.len() ==> (#[trigger] fields[i]).id.model == model,
    ensures
        forall|m: ModelId| m != model ==> #[trigger] root_fields(
            s,
            fields,
            prefix,
            has_children,
        ).mapping[m] == s.mapping[m],
    decreases fields.len(),
{
    if fields.len() > 0 {
        let rest = fields.drop_last();
        assert forall|i: int| 0 <= i < rest.len() implies (#[trigger] rest[i]).id.model == model by {
            assert(rest[i] == fields[i]);
        }
        let u = root_fields(s, rest, prefix, has_children);
        let t = root_fields(s, fields, prefix, has_children);
        lemma_root_fields_others(s, rest, prefix, has_children, model);
        assert(fields[fields.len() - 1].id.model == model);
        assert forall|m: ModelId| m != model implies #[trigger] t.mapping[m] == s.mapping[m] by {
            assert(u.mapping[m] == s.mapping[m]);
        }
    }
}

proof fn lemma_child_fields_others(
    s: BuildView,
    fields: Seq<app::Field>,
    prefix: Seq<char>,
    model: ModelId,
)
    requires
        forall|i: int| 0 <= i < fields.len() ==> (#[trigger] fields[i]).id.model == model,
    ensures
        forall|m: ModelId| m != model ==> #[trigger] child_fields(
            s,
            model,
            fields,
            prefix,
        ).mapping[m] == s.mapping[m],
    decreases fields.len(),
{
    if fields.len() > 0 {
        let rest = fields.drop_last();
        assert forall|i: int| 0 <= i < rest.len() implies (#[trigger] rest[i]).id.model == model by {
            assert(rest[i] == fields[i]);
        }
        let u = child_fields(s, model, rest, prefix);
        let t = child_fields(s, model, fields, prefix);
        lemma_child_fields_others(s, rest, prefix, model);
        assert(fields[fields.len() - 1].id.model == model);
        assert forall|m: ModelId| m != model implies #[trigger] t.mapping[m] == s.mapping[m] by {
            assert(u.mapping[m] == s.mapping[m]);
        }
    }
}

proof fn lemma_key_fields_others(
    s: BuildView,
    model: ModelId,
    root: ModelId,
    fields: Seq<app::IndexField>,
)
    ensures
        forall|m: ModelId| m != root ==> #[trigger] child_key_fields(
            s,
            model,
            root,
            fields,
        ).mapping[m] == s.mapping[m],
    decreases fields.len(),
{
    if fields.len() > 0 {
        let u = child_key_fields(s, model, root, fields.drop_last());
        let t = child_key_fields(s, model, root, fields);
        lemma_key_fields_others(s, model, root, fields.drop_last());
        assert forall|m: ModelId| m != root implies #[trigger] t.mapping[m] == s.mapping[m] by {
            assert(u.mapping[m] == s.mapping[m]);
        }
    }
}

proof fn lemma_child_indices_others(
    s: BuildView,
    model: ModelId,
    root: ModelId,
    indices: Seq<app::Index>,
)
    ensures
        forall|m: ModelId| m != root ==> #[trigger] child_indices(
            s,
            model,
            root,
            indices,
        ).mapping[m] == s.mapping[m],
    decreases indices.len(),
{
    if indices.len() > 0 {
        let u = child_indices(s, model, root, indices.drop_last());
        lemma_child_indices_others(s, model, root, indices.drop_last());
        if indices.last().primary_key {
            lemma_key_fields_others(u, model, root, indices.last().fields@);
        }
        let t = child_indices(s, model, root, indices);
        assert forall|m: ModelId| m != root implies #[trigger] t.mapping[m] == s.mapping[m] by {
            assert(u.mapping[m] == s.mapping[m]);
        }
    }
}

proof fn lemma_children_others(s: BuildView, children: Seq<&Model>, root: ModelId)
    requires
        forall|k: int| 0 <= k < children.len() ==> app::fields_numbered(*(#[trigger] children[k])),
    ensures
        others_kept(s, add_children(s, children, root), root, children),
    decreases children.len(),
{
    if children.len() > 0 {
        let rest = children.drop_last();
        let u = add_children(s, rest, root);
        let t = add_children(s, children, root);
        let model = *children.last();
        let a = child_fields(u, model.id, model.fields@, model.name.snake_case@);
        let b = map_model(a, model);
        assert forall|k: int| 0 <= k < rest.len() implies app::fields_numbered(
            *(#[trigger] rest[k]),
        ) by {
            assert(rest[k] == children[k]);
        }
        assert(app::fields_numbered(*children[children.len() - 1]));
        lemma_children_others(s, rest, root);
        lemma_child_fields_others(u, model.fields@, model.name.snake_case@, model.id);
        lemma_child_indices_others(b, model.id, root, model.indices@);
        assert forall|m: ModelId|
            m != root && (forall|k: int|
                0 <= k < children.len() ==> (#[trigger] children[k]).id != m) implies #[trigger] t.mapping[m]
            == s.mapping[m] by {
            assert forall|k: int| 0 <= k < rest.len() implies (#[trigger] rest[k]).id != m by {
                assert(rest[k] == children[k]);
            }
            assert(children[children.len() - 1].id != m);
            assert(u.mapping[m] == s.mapping[m]);
            assert(a.mapping[m] == u.mapping[m]);
            assert(b.mapping[m] == a.mapping[m]);
        }
    }
}

proof fn lemma_tags_others(s: BuildView, models: Seq<&Model>, column: ColumnId, root: ModelId)
    ensures
        others_kept(s, tag_models(s, models, column), root, models),
    decreases models.len(),
{
    if models.len() > 0 {
        let rest = models.drop_last();
        let u = tag_models(s, rest, column);
        let t = tag_models(s, models, column);
        lemma_tags_others(s, rest, column, root);
        assert forall|m: ModelId|
            m != root && (forall|k: int|
                0 <= k < models.len() ==> (#[trigger] models[k]).id != m) implies #[trigger] t.mapping[m]
            == s.mapping[m] by {
            assert forall|k: int| 0 <= k < rest.len() implies (#[trigger] rest[k]).id != m by {
                assert(rest[k] == models[k]);
            }
            assert(models[models.len() - 1].id != m);
            assert(u.mapping[m] == s.mapping[m]);
        }
    }
}

/// Building a table leaves the mappings of the models of other tables alone.
proof fn lemma_built_others(
    s: BuildView,
    db: Capability,
    prefixed: bool,
    root: Model,
    children: Seq<&Model>,
)
    requires
        app::fields_numbered(root),
        forall|k: int| 0 <= k < children.len() ==> app::fields_numbered(*(#[trigger] children[k])),
    ensures
        others_kept(s, built(s, db, prefixed, root, children), root.id, children),
{
    let has_children = children.len() > 0;
    let prefix = root_prefix(root, prefixed);
    let fields = root_fields(s, root.fields@, prefix, has_children);
    let a = add_root(s, root, prefixed, has_children);
    let t = built(s, db, prefixed, root, children);
    lemma_root_fields_others(s, root.fields@, prefix, has_children, root.id);
    lemma_add_indices(map_model(fields, root), root.id, root.indices@);
    if has_children {
        let column = model_column(a.table, db, root, children).id;
        let b = add_model_column(a, db, root, children);
        let c = add_children(b, children, root.id);
        let d = BuildView { table: named(c.table), ..c };
        let e = tag_model(d, root, column);
        lemma_children_others(b, children, root.id);
        lemma_tags_others(e, children, column, root.id);
        assert forall|m: ModelId|
            m != root.id && (forall|k: int|
                0 <= k < children.len() ==> (#[trigger] children[k]).id != m) implies #[trigger] t.mapping[m]
            == s.mapping[m] by {
            assert(e.mapping[m] == c.mapping[m]);
            assert(c.mapping[m] == b.mapping[m]);
        }
    }
}

/// Whether the model's primitive fields have columns of the table, fields and columns
/// are expressed in terms of each other, and each column has an expression.
pub open spec fn model_built(s: BuildView, model: Model) -> bool {
    &&& all_placed(s, model.fields@)
    &&& model_lowered(s, model)
    &&& aligned(s.mapping[model.id])
}

/// Whether a table is complete: its columns and indices stand at the positions that
/// their identifiers say, every index has its name, every primitive field of every
/// model of the table has a column of it, and columns are named after their fields,
/// with the name of the model before it if the table holds several models. In that
/// case the rows of all of them carry the name of their model in one column.
pub open spec fn table_built(
    table: TableView,
    mapping: Map<ModelId, ModelView>,
    models: Seq<Model>,
) -> bool {
    let s = BuildView { table, mapping };
    let roots = stored_in(models, mapping, table.id, true);
    let children = stored_in(models, mapping, table.id, false);
    &&& columns_numbered(table)
    &&& indices_numbered(table)
    &&& indices_named(table)
    &&& roots.len() == 1
    &&& model_built(s, *roots[0])
    &&& root_named(s, *roots[0], children.len() > 0, children.len() > 0)
    &&& children.len() > 0 ==> names_shared(s, *roots[0], children)
    &&& forall|k: int|
        0 <= k < children.len() ==> model_built(s, *(#[trigger] children[k])) && child_named(
            s,
            *children[k],
        )
}

/// A model whose mapping is untouched stays as it is built.
proof fn lemma_model_kept(s: BuildView, t: BuildView, model: Model)
    requires
        app::fields_numbered(model),
        t.table == s.table,
        t.mapping.dom() == s.mapping.dom(),
        t.mapping[model.id] == s.mapping[model.id],
    ensures
        model_built(s, model) ==> model_built(t, model),
        same_places(s, t, model.id),
{
    if model_built(s, model) {
        assert forall|i: int|
            0 <= i < model.fields@.len() && (#[trigger] model.fields@[i]).ty is Primitive implies placed(
            t,
            model.fields@[i].id.model,
            model.fields@[i].id.index as int,
        ) by {
            assert(placed(s, model.fields@[i].id.model, model.fields@[i].id.index as int));
        }
        assert forall|i: int| 0 <= i < model.fields@.len() implies field_lowered(
            t,
            model.id,
            #[trigger] model.fields@[i],
        ) by {
            assert(field_lowered(s, model.id, model.fields@[i]));
        }
    }
}

/// Whether none of the first `n` tables has more columns than can be counted.
pub open spec fn columns_counted(s: SchemaView, n: nat) -> bool {
    forall|k: int| 0 <= k < n ==> (#[trigger] s.tables[k]).columns.len() <= usize::MAX
}

/// Whether the columns and the indices that tables have at first, if any, stand at the
/// positions that their identifiers say.
pub open spec fn tables_numbered(s: SchemaView) -> bool {
    forall|k: int|
        0 <= k < s.tables.len() ==> columns_numbered(#[trigger] s.tables[k]) && indices_numbered(
            s.tables[k],
        )
}

/// Whether the first `n` tables are complete, and the others untouched.
pub open spec fn built_up_to(s: SchemaView, t: SchemaView, models: Seq<Model>, n: nat) -> bool {
    &&& t.tables.len() == s.tables.len()
    &&& grown(s.mapping, t.mapping)
    &&& forall|k: int| n <= k < s.tables.len() ==> #[trigger] t.tables[k] == s.tables[k]
    &&& forall|k: int|
        0 <= k < n ==> table_built(#[trigger] t.tables[k], t.mapping, models)
}

/// A table that is built is complete.
pub proof fn lemma_one_built(s: BuildView, models: Seq<Model>, db: Capability)
    requires
        models_differ(models),
        one_ready(s, models),
        columns_numbered(s.table),
        indices_numbered(s.table),
        build_one(s, models, db).table.columns.len() <= usize::MAX,
        forall|i: int| 0 <= i < models.len() ==> s.mapping.contains_key((#[trigger] models[i]).id),
    ensures
        ({
            let t = build_one(s, models, db);
            &&& table_built(t.table, t.mapping, models)
            &&& grown(s.mapping, t.mapping)
            &&& t.table.id == s.table.id
            &&& others_kept(
                s,
                t,
                stored_in(models, s.mapping, s.table.id, true)[0].id,
                stored_in(models, s.mapping, s.table.id, false),
            )
        }),
{
    let roots = stored_in(models, s.mapping, s.table.id, true);
    let children = stored_in(models, s.mapping, s.table.id, false);
    let root = *roots[0];
    let prefixed = children.len() > 0;
    let t = built(s, db, prefixed, root, children);
    lemma_members_differ(models, s.mapping, s.table.id);
    lemma_built(s, db, prefixed, root, children);
    assert(grown(s.mapping, t.mapping));
    lemma_stored_in(models, s.mapping, t.mapping, s.table.id, true);
    lemma_stored_in(models, s.mapping, t.mapping, s.table.id, false);
    law_columns_are_numbered(s, db, prefixed, root, children);
    law_indices_are_numbered_and_named(s, db, prefixed, root, children);
    law_fields_and_columns_agree(s, db, prefixed, root, children);
    law_columns_are_named_after_fields(s, db, prefixed, root, children);
    law_every_column_has_an_expression(s, db, prefixed, root, children);
    assert forall|k: int| 0 <= k < children.len() implies app::fields_numbered(
        *(#[trigger] children[k]),
    ) by {
        assert(child_fits(s.mapping, root, children.take(k), *children[k]));
    }
    lemma_built_others(s, db, prefixed, root, children);
    if children.len() > 0 {
        lemma_names_shared(s, db, prefixed, root, children);
    }
    assert forall|k: int| 0 <= k < children.len() implies model_built(
        t,
        *(#[trigger] children[k]),
    ) && child_named(t, *children[k]) by {
        assert(all_placed(t, children[k].fields@));
        assert(model_lowered(t, *children[k]));
    }
}

/// A table that is complete stays so when another one is built.
proof fn lemma_table_kept(
    table: TableView,
    other: TableId,
    s: Map<ModelId, ModelView>,
    t: BuildView,
    models: Seq<Model>,
)
    requires
        table.id != other,
        table_built(table, s, models),
        grown(s, t.mapping),
        stored_in(models, s, other, true).len() > 0,
        forall|i: int| 0 <= i < models.len() ==> s.contains_key((#[trigger] models[i]).id),
        models_differ(models),
        forall|k: int|
            0 <= k < stored_in(models, s, table.id, true).len() ==> app::fields_numbered(
                *(#[trigger] stored_in(models, s, table.id, true)[k]),
            ),
        forall|k: int|
            0 <= k < stored_in(models, s, table.id, false).len() ==> app::fields_numbered(
                *(#[trigger] stored_in(models, s, table.id, false)[k]),
            ),
        others_kept(
            BuildView { mapping: s, ..t },
            t,
            stored_in(models, s, other, true)[0].id,
            stored_in(models, s, other, false),
        ),
    ensures
        table_built(table, t.mapping, models),
{
    let before = BuildView { table, mapping: s };
    let after = BuildView { table, mapping: t.mapping };
    let roots = stored_in(models, s, table.id, true);
    let children = stored_in(models, s, table.id, false);
    let other_roots = stored_in(models, s, other, true);
    let other_children = stored_in(models, s, other, false);
    lemma_stored_in(models, s, t.mapping, table.id, true);
    lemma_stored_in(models, s, t.mapping, table.id, false);
    lemma_members(models, s, table.id, true);
    lemma_members(models, s, table.id, false);
    lemma_members(models, s, other, true);
    lemma_members(models, s, other, false);
    assert(is_member(models, s, other, true, *other_roots[0]));
    assert forall|m: ModelId| s[m].table == table.id implies #[trigger] t.mapping[m] == s[m] by {
        assert forall|k: int| 0 <= k < other_children.len() implies (
        #[trigger] other_children[k]).id != m by {
            assert(is_member(models, s, other, false, *other_children[k]));
        }
    }
    let root = *roots[0];
    assert(is_member(models, s, table.id, true, *roots[0]));
    assert(app::fields_numbered(*roots[0]));
    lemma_model_kept(before, after, root);
    lemma_root_named_kept(
        before,
        after,
        root,
        children.len() > 0,
        children.len() > 0,
    );
    if children.len() > 0 {
        assert forall|k: int| 0 <= k < children.len() implies after.mapping[(
        #[trigger] children[k]).id].model_column == after.mapping[root.id].model_column by {
            assert(is_member(models, s, table.id, false, *children[k]));
            assert(before.mapping[children[k].id].model_column
                == before.mapping[root.id].model_column);
        }
        assert(names_shared(after, root, children));
    }
    assert forall|k: int| 0 <= k < children.len() implies model_built(
        after,
        *(#[trigger] children[k]),
    ) && child_named(after, *children[k]) by {
        assert(is_member(models, s, table.id, false, *children[k]));
        assert(app::fields_numbered(*children[k]));
        lemma_model_kept(before, after, *children[k]);
        lemma_child_named_kept(before, after, *children[k]);
    }
}

/// Once all tables are built, every table is complete: its columns and indices are
/// numbered, its indices are named, every primitive field of its models has a column
/// of it, and columns carry the name of their model exactly if the table holds several,
/// whose rows then carry the name of their model in one column.
pub proof fn law_all_tables_are_complete(
    s: SchemaView,
    models: Seq<Model>,
    db: Capability,
    n: nat,
)
    requires
        numbered(s),
        schema_ready(s, models),
        models_differ(models),
        tables_numbered(s),
        n <= s.tables.len(),
        columns_counted(build_all(s, models, db, n), n),
    ensures
        built_up_to(s, build_all(s, models, db, n), models, n),
    decreases n,
{
    let after = build_all(s, models, db, n);
    if n > 0 {
        let before = build_all(s, models, db, (n - 1) as nat);
        law_building_keeps_numbering(s, models, db, (n - 1) as nat);
        law_building_keeps_numbering(s, models, db, n);
        let last = n - 1;
        let view = BuildView { table: before.tables[last], mapping: before.mapping };
        let one = build_one(view, models, db);
        assert forall|k: int| 0 <= k < n - 1 implies (#[trigger] before.tables[k]).columns.len()
            <= usize::MAX by {
            assert(after.tables[k] == before.tables[k]);
        }
        law_all_tables_are_complete(s, models, db, (n - 1) as nat);
        assert(before.tables[last] == s.tables[last]);
        assert(one_ready(BuildView { table: s.tables[last], mapping: s.mapping }, models));
        lemma_stored_in(models, s.mapping, before.mapping, view.table.id, true);
        lemma_stored_in(models, s.mapping, before.mapping, view.table.id, false);
        lemma_table_ready(
            view.table,
            s.mapping,
            before.mapping,
            *stored_in(models, s.mapping, view.table.id, true)[0],
            stored_in(models, s.mapping, view.table.id, false),
        );
        assert forall|i: int| 0 <= i < models.len() implies before.mapping.contains_key(
            (#[trigger] models[i]).id,
        ) by {
            assert(s.mapping.contains_key(models[i].id));
        }
        assert(columns_numbered(s.tables[last]));
        assert(after.tables[last] == one.table);
        lemma_one_built(view, models, db);
        lemma_grown_trans(s.mapping, before.mapping, one.mapping);
        assert forall|k: int| 0 <= k < n implies table_built(
            #[trigger] after.tables[k],
            after.mapping,
            models,
        ) by {
            if k < last {
                assert(after.tables[k] == before.tables[k]);
                assert(table_built(before.tables[k], before.mapping, models));
                assert(before.tables[k].id.0 == k && before.tables[last].id.0 == last);
                assert(s.tables[k].id.0 == k);
                lemma_members_numbered(s, before, models, k);
                lemma_table_kept(
                    before.tables[k],
                    view.table.id,
                    before.mapping,
                    one,
                    models,
                );
            }
        }
    }
}

/// The fields of the models of a table are numbered.
proof fn lemma_members_numbered(s: SchemaView, t: SchemaView, models: Seq<Model>, k: int)
    requires
        schema_ready(s, models),
        grown(s.mapping, t.mapping),
        0 <= k < s.tables.len(),
        t.tables[k].id == s.tables[k].id,
    ensures
        ({
            let table = t.tables[k].id;
            let roots = stored_in(models, t.mapping, table, true);
            let children = stored_in(models, t.mapping, table, false);
            &&& roots.len() == 1
            &&& app::fields_numbered(*roots[0])
            &&& forall|j: int|
                0 <= j < children.len() ==> app::fields_numbered(*(#[trigger] children[j]))
        }),
{
    let table = s.tables[k].id;
    let view = BuildView { table: s.tables[k], mapping: s.mapping };
    let roots = stored_in(models, s.mapping, table, true);
    let children = stored_in(models, s.mapping, table, false);
    assert(one_ready(view, models));
    lemma_stored_in(models, s.mapping, t.mapping, table, true);
    lemma_stored_in(models, s.mapping, t.mapping, table, false);
    assert forall|j: int| 0 <= j < children.len() implies app::fields_numbered(
        *(#[trigger] children[j]),
    ) by {
        assert(child_fits(s.mapping, *roots[0], children.take(j), *children[j]));
    }
}

} // verus!

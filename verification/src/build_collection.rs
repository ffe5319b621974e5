//! Builds the whole table of a root model and the children in its item collection.

use crate::app::{self, Field, FieldId, FieldTy, Model, ModelId};
use crate::build_children::{
    add_child, child_field_ready, child_fields, child_index_ready, child_indices, child_key_fields,
    child_ready, indexed, key_index_count, key_index_place, lemma_add_index, lemma_all_placed,
    lemma_child_fields, lemma_child_indices, lemma_key_index_place, lemma_with_key_column,
    model_column, with_model_column,
};
use crate::build_mapping::has_primitive;
use crate::build_table::{
    BuildTableFromModels, BuildView, Capability, add_indices, add_root, all_placed, extends,
    index_ready, lemma_add_indices, lemma_extends_refl, lemma_extends_trans, lemma_map_model,
    lemma_ready, lemma_root_fields, map_model, placed, primitive_field, put_model, root_fields,
    root_prefix, root_ready, storable,
};
use crate::db::{ColumnId, ColumnView, IndexColumn, IndexOp, IndexScope, IndexView, TableView};
use crate::mapping::ModelView;
use crate::stmt::{Expr, Type, Value};
use vstd::prelude::*;

verus! {

/// The part of an index name that lists its columns.
pub open spec fn column_list(stored: Seq<ColumnView>, columns: Seq<IndexColumn>) -> Seq<char>
    decreases columns.len(),
{
    if columns.len() == 0 {
        Seq::empty()
    } else {
        column_list(stored, columns.drop_last()) + (if columns.len() > 1 {
            "_and"@
        } else {
            Seq::empty()
        }) + "_"@ + stored[columns.last().column.index as int].name
    }
}

/// The name of an index over the given columns.
pub open spec fn index_name(table: TableView, columns: Seq<IndexColumn>) -> Seq<char> {
    "index_"@ + table.name + "_by"@ + column_list(table.columns, columns)
}

/// The table with all its indices named.
pub open spec fn named(table: TableView) -> TableView {
    TableView {
        indices: table.indices.map_values(
            |i: IndexView| IndexView { name: index_name(table, i.columns), ..i },
        ),
        ..table
    }
}

/// The state in which the model's rows carry its name in the given column.
pub open spec fn tag_model(s: BuildView, model: Model, column: ColumnId) -> BuildView {
    let mapping = s.mapping[model.id];
    put_model(
        s,
        model.id,
        ModelView {
            model_column: Some(column),
            columns: mapping.columns.push(column),
            model_to_table: mapping.model_to_table.push(
                Expr::Value(Value::String(model.name.camel_case)),
            ),
            ..mapping
        },
    )
}

/// The state in which the rows of all the models carry their names.
pub open spec fn tag_models(s: BuildView, models: Seq<&Model>, column: ColumnId) -> BuildView
    decreases models.len(),
{
    if models.len() == 0 {
        s
    } else {
        tag_model(tag_models(s, models.drop_last(), column), *models.last(), column)
    }
}

/// The state once all the children are in the table.
pub open spec fn add_children(s: BuildView, children: Seq<&Model>, root: ModelId) -> BuildView
    decreases children.len(),
{
    if children.len() == 0 {
        s
    } else {
        add_child(add_children(s, children.drop_last(), root), *children.last(), root)
    }
}

/// The state with the column for the model name.
pub open spec fn add_model_column(
    s: BuildView,
    db: Capability,
    root: Model,
    children: Seq<&Model>,
) -> BuildView {
    BuildView { table: with_model_column(s.table, db, root, children), ..s }
}

/// The state once the table is complete.
///
/// Without children the table holds the root's columns alone. With children,
/// there is also a column for the model name, and the rows of each model carry
/// the name there.
pub open spec fn built(
    s: BuildView,
    db: Capability,
    prefixed: bool,
    root: Model,
    children: Seq<&Model>,
) -> BuildView {
    let a = add_root(s, root, prefixed, children.len() > 0);
    if children.len() == 0 {
        BuildView { table: named(a.table), ..a }
    } else {
        let column = model_column(a.table, db, root, children).id;
        let c = add_children(add_model_column(a, db, root, children), children, root.id);
        let d = BuildView { table: named(c.table), ..c };
        tag_models(tag_model(d, root, column), children, column)
    }
}

/// How many of the model's indices are over its primary key.
pub open spec fn key_count(indices: Seq<app::Index>) -> nat
    decreases indices.len(),
{
    if indices.len() == 0 {
        0
    } else {
        key_count(indices.drop_last()) + if indices.last().primary_key {
            1nat
        } else {
            0nat
        }
    }
}

/// Whether the identifier names a primitive field of the model.
pub open spec fn has_primitive_at(model: Model, field: FieldId) -> bool {
    &&& field.model == model.id
    &&& field.index < model.fields@.len()
    &&& model.fields@[field.index as int].ty is Primitive
}

/// Whether the identifier names a primitive field of the root or of an earlier child.
pub open spec fn parent_fits(root: Model, earlier: Seq<&Model>, parent: FieldId) -> bool {
    has_primitive_at(root, parent) || exists|k: int|
        0 <= k < earlier.len() && has_primitive_at(*(#[trigger] earlier[k]), parent)
}

/// Whether a child's field can be given a column after the root and the earlier children.
pub open spec fn child_field_fits(
    mapping: Map<ModelId, ModelView>,
    root: Model,
    earlier: Seq<&Model>,
    model: ModelId,
    field: Field,
) -> bool {
    if mapping[model].is_linked(field.id) {
        &&& mapping[model].stores(field.id.index as int)
        &&& parent_fits(root, earlier, mapping[model].parent_field(field.id))
        &&& field.ty matches FieldTy::Primitive(primitive) ==> primitive.ty != Type::Null
    } else {
        storable(mapping, field)
    }
}

/// Whether a child can be added after the root and the earlier children.
pub open spec fn child_fits(
    mapping: Map<ModelId, ModelView>,
    root: Model,
    earlier: Seq<&Model>,
    model: Model,
) -> bool {
    &&& app::fields_numbered(model)
    &&& mapping.contains_key(model.id)
    &&& has_primitive(model.fields@)
    &&& forall|i: int|
        0 <= i < model.fields@.len() ==> child_field_fits(
            mapping,
            root,
            earlier,
            model.id,
            #[trigger] model.fields@[i],
        )
    &&& forall|i: int|
        0 <= i < model.indices@.len() ==> child_index_ready(
            mapping[model.id],
            model,
            #[trigger] model.indices@[i],
        )
}

/// Whether all the children can be added, each after those before it.
pub open spec fn children_fit(
    mapping: Map<ModelId, ModelView>,
    root: Model,
    children: Seq<&Model>,
) -> bool {
    forall|j: int|
        0 <= j < children.len() ==> child_fits(
            mapping,
            root,
            children.take(j),
            *(#[trigger] children[j]),
        )
}

/// Whether a table can be built from a root and its children.
///
/// With children, the table must have exactly one index over the primary key.
pub open spec fn table_ready(s: BuildView, root: Model, children: Seq<&Model>) -> bool {
    &&& root_ready(s.mapping, root)
    &&& indexed(s.table)
    &&& children.len() > 0 ==> key_index_count(s.table.indices) + key_count(root.indices@) == 1
    &&& children_fit(s.mapping, root, children)
}

proof fn lemma_root_indices(s: BuildView, model: Model, indices: Seq<app::Index>)
    requires
        app::fields_numbered(model),
        all_placed(s, model.fields@),
        forall|i: int| 0 <= i < indices.len() ==> index_ready(model, #[trigger] indices[i]),
    ensures
        ({
            let t = add_indices(s, model.id, indices);
            &&& extends(s, t)
            &&& t.mapping == s.mapping
            &&& t.table.columns == s.table.columns
            &&& key_index_count(t.table.indices) == key_index_count(s.table.indices) + key_count(
                indices,
            )
            &&& indexed(s.table) ==> indexed(t.table)
        }),
    decreases indices.len(),
{
    if indices.len() == 0 {
        lemma_extends_refl(s);
    } else {
        let rest = indices.drop_last();
        let u = add_indices(s, model.id, rest);
        assert forall|i: int| 0 <= i < rest.len() implies index_ready(model, #[trigger] rest[i]) by {
            assert(rest[i] == indices[i]);
        }
        lemma_root_indices(s, model, rest);
        lemma_all_placed(s, u, model.fields@);
        assert(index_ready(model, indices[indices.len() - 1]));
        lemma_add_index(u, model, indices.last());
        lemma_extends_trans(s, u, add_indices(s, model.id, indices));
    }
}

/// Adding the root gives all its primitive fields a column.
pub proof fn lemma_add_root(s: BuildView, model: Model, prefixed: bool, has_children: bool)
    requires
        root_ready(s.mapping, model),
        add_root(s, model, prefixed, has_children).table.columns.len() <= usize::MAX,
    ensures
        ({
            let t = add_root(s, model, prefixed, has_children);
            &&& extends(s, t)
            &&& all_placed(t, model.fields@)
            &&& key_index_count(t.table.indices) == key_index_count(s.table.indices) + key_count(
                model.indices@,
            )
            &&& indexed(s.table) ==> indexed(t.table)
        }),
{
    let prefix = root_prefix(model, prefixed);
    let a = root_fields(s, model.fields@, prefix, has_children);
    let b = map_model(a, model);
    let t = add_root(s, model, prefixed, has_children);
    lemma_add_indices(b, model.id, model.indices@);
    lemma_root_fields(s, model.fields@, prefix, has_children, model.id);
    assert forall|i: int| 0 <= i < model.fields@.len() implies ((
    #[trigger] model.fields@[i]).ty matches FieldTy::Primitive(p) ==> p.ty != Type::Null) by {
        assert(storable(s.mapping, model.fields@[i]));
    }
    lemma_ready(a, model);
    lemma_map_model(a, model);
    lemma_all_placed(a, b, model.fields@);
    assert forall|i: int| 0 <= i < model.indices@.len() implies index_ready(
        model,
        #[trigger] model.indices@[i],
    ) by {}
    lemma_root_indices(b, model, model.indices@);
    lemma_all_placed(b, t, model.fields@);
    lemma_extends_trans(s, a, b);
    lemma_extends_trans(s, b, t);
    if indexed(s.table) {
        lemma_indexed(s.table, a.table);
    }
}

/// Indices stay over columns of the table while it grows.
proof fn lemma_indexed(s: TableView, t: TableView)
    requires
        indexed(s),
        t.indices == s.indices,
        s.columns.len() <= t.columns.len(),
    ensures
        indexed(t),
{
    assert forall|i: int, j: int|
        0 <= i < t.indices.len() && 0 <= j < t.indices[i].columns.len() implies t.has_column(
        (#[trigger] t.indices[i].columns[j]).column,
    ) by {
        assert(s.has_column(s.indices[i].columns[j].column));
    }
}

/// Adding a child gives all its primitive fields a column.
pub proof fn lemma_add_child(s: BuildView, model: Model, root: ModelId)
    requires
        child_ready(s, model),
        s.mapping.contains_key(root),
        key_index_place(s.table.indices) is Some,
        add_child(s, model, root).table.columns.len() <= usize::MAX,
    ensures
        ({
            let t = add_child(s, model, root);
            &&& extends(s, t)
            &&& all_placed(t, model.fields@)
            &&& key_index_place(t.table.indices) is Some
            &&& indexed(s.table) ==> indexed(t.table)
            &&& forall|m: ModelId| m != model.id && m != root ==> #[trigger] t.mapping[m]
                == s.mapping[m]
        }),
{
    let fields = model.fields@;
    let a = child_fields(s, model.id, fields, model.name.snake_case@);
    let b = map_model(a, model);
    let t = add_child(s, model, root);
    lemma_columns_bound(s, model, root);
    assert forall|k: int| 0 <= k < fields.len() implies (#[trigger] fields[k]).id.model == model.id
        && child_field_ready(s, model.id, fields[k]) by {
        assert(fields[k] == model.fields@[k]);
    }
    lemma_child_fields(s, model.id, fields, model.name.snake_case@);
    assert forall|k: int| 0 <= k < fields.len() implies ((#[trigger] model.fields@[k]).ty matches
        FieldTy::Primitive(p) ==> p.ty != Type::Null) by {
        assert(child_field_ready(s, model.id, model.fields@[k]));
    }
    lemma_ready(a, model);
    lemma_map_model(a, model);
    lemma_all_placed(a, b, fields);
    assert forall|k: int| 0 <= k < model.indices@.len() implies child_index_ready(
        b.mapping[model.id],
        model,
        #[trigger] model.indices@[k],
    ) by {
        let index = model.indices@[k];
        assert(child_index_ready(s.mapping[model.id], model, index));
        assert(b.mapping[model.id].links == s.mapping[model.id].links);
        assert forall|j: int| 0 <= j < index.fields@.len() implies (
        primitive_field(model, #[trigger] index.fields@[j]) || (
        index.primary_key && b.mapping[model.id].is_linked(index.fields@[j].field))) by {}
    }
    lemma_child_indices(b, model, root, model.indices@);
    lemma_all_placed(b, t, fields);
    lemma_extends_trans(s, a, b);
    lemma_extends_trans(s, b, t);
    if indexed(s.table) {
        lemma_indexed(s.table, a.table);
    }
}

/// The indices of a child add no columns.
pub proof fn lemma_columns_bound(s: BuildView, model: Model, root: ModelId)
    ensures
        add_child(s, model, root).table.columns == child_fields(
            s,
            model.id,
            model.fields@,
            model.name.snake_case@,
        ).table.columns,
{
    let b = map_model(child_fields(s, model.id, model.fields@, model.name.snake_case@), model);
    lemma_index_columns_bound(b, model.id, root, model.indices@);
}

pub proof fn lemma_index_columns_bound(
    s: BuildView,
    model: ModelId,
    root: ModelId,
    indices: Seq<app::Index>,
)
    ensures
        child_indices(s, model, root, indices).table.columns == s.table.columns,
    decreases indices.len(),
{
    if indices.len() > 0 {
        let rest = indices.drop_last();
        lemma_index_columns_bound(s, model, root, rest);
        if indices.last().primary_key {
            lemma_key_columns_bound(
                child_indices(s, model, root, rest),
                model,
                root,
                indices.last().fields@,
            );
        }
    }
}

proof fn lemma_key_columns_bound(
    s: BuildView,
    model: ModelId,
    root: ModelId,
    fields: Seq<app::IndexField>,
)
    ensures
        child_key_fields(s, model, root, fields).table.columns
            == s.table.columns,
    decreases fields.len(),
{
    if fields.len() > 0 {
        lemma_key_columns_bound(s, model, root, fields.drop_last());
    }
}

/// A child that fits can be added once the root and the earlier children are there.
pub proof fn lemma_child_fits(
    start: BuildView,
    s: BuildView,
    root: Model,
    earlier: Seq<&Model>,
    model: Model,
)
    requires
        extends(start, s),
        child_fits(start.mapping, root, earlier, model),
        app::fields_numbered(root),
        all_placed(s, root.fields@),
        forall|k: int|
            0 <= k < earlier.len() ==> app::fields_numbered(*(#[trigger] earlier[k]))
                && all_placed(s, earlier[k].fields@),
    ensures
        child_ready(s, model),
{
    assert forall|i: int| 0 <= i < model.fields@.len() implies child_field_ready(
        s,
        model.id,
        #[trigger] model.fields@[i],
    ) by {
        let field = model.fields@[i];
        assert(child_field_fits(start.mapping, root, earlier, model.id, field));
        let mapping = start.mapping[model.id];
        if mapping.stores(field.id.index as int) {
            assert(s.mapping[model.id].stores(field.id.index as int));
        }
        if mapping.is_linked(field.id) {
            let parent = mapping.parent_field(field.id);
            let at = parent.index as int;
            if has_primitive_at(root, parent) {
                assert(root.fields@[at].ty is Primitive);
                assert(placed(s, root.fields@[at].id.model, root.fields@[at].id.index as int));
            } else {
                let k = choose|k: int|
                    0 <= k < earlier.len() && has_primitive_at(*(#[trigger] earlier[k]), parent);
                let m = *earlier[k];
                assert(app::fields_numbered(m) && all_placed(s, m.fields@));
                assert(m.fields@[at].ty is Primitive);
                assert(placed(s, m.fields@[at].id.model, m.fields@[at].id.index as int));
            }
        }
    }
    assert forall|i: int| 0 <= i < model.indices@.len() implies child_index_ready(
        s.mapping[model.id],
        model,
        #[trigger] model.indices@[i],
    ) by {
        let index = model.indices@[i];
        assert(child_index_ready(start.mapping[model.id], model, index));
        assert forall|j: int| 0 <= j < index.fields@.len() implies (
        primitive_field(model, #[trigger] index.fields@[j]) || (
        index.primary_key && s.mapping[model.id].is_linked(index.fields@[j].field))) by {}
    }
}

/// Adding the children, one after the other, gives all their primitive fields a column.
pub proof fn lemma_add_children(start: BuildView, s: BuildView, root: Model, children: Seq<&Model>)
    requires
        extends(start, s),
        start.mapping.contains_key(root.id),
        app::fields_numbered(root),
        all_placed(s, root.fields@),
        indexed(s.table),
        key_index_place(s.table.indices) is Some,
        children_fit(start.mapping, root, children),
        add_children(s, children, root.id).table.columns.len() <= usize::MAX,
    ensures
        ({
            let t = add_children(s, children, root.id);
            &&& extends(s, t)
            &&& extends(start, t)
            &&& all_placed(t, root.fields@)
            &&& forall|k: int|
                0 <= k < children.len() ==> app::fields_numbered(*(#[trigger] children[k]))
                    && all_placed(t, children[k].fields@)
            &&& key_index_place(t.table.indices) is Some
            &&& indexed(t.table)
        }),
    decreases children.len(),
{
    if children.len() == 0 {
        lemma_extends_refl(s);
    } else {
        let rest = children.drop_last();
        let u = add_children(s, rest, root.id);
        let t = add_children(s, children, root.id);
        let last = *children.last();
        lemma_fields_grow(u, last.id, last.fields@, last.name.snake_case@);
        lemma_columns_bound(u, last, root.id);
        assert forall|j: int| 0 <= j < rest.len() implies child_fits(
            start.mapping,
            root,
            rest.take(j),
            *(#[trigger] rest[j]),
        ) by {
            assert(rest[j] == children[j]);
            assert(rest.take(j) =~= children.take(j));
        }
        lemma_add_children(start, s, root, rest);
        assert(children.take(children.len() - 1) =~= rest);
        assert(child_fits(start.mapping, root, rest, *children[children.len() - 1]));
        lemma_child_fits(start, u, root, rest, last);
        lemma_add_child(u, last, root.id);
        lemma_extends_trans(s, u, t);
        lemma_extends_trans(start, u, t);
        lemma_all_placed(u, t, root.fields@);
        assert forall|k: int| 0 <= k < children.len() implies app::fields_numbered(
            *(#[trigger] children[k]),
        ) && all_placed(t, children[k].fields@) by {
            if k < rest.len() {
                assert(rest[k] == children[k]);
                lemma_all_placed(u, t, children[k].fields@);
            }
        }
    }
}

/// Child fields take no columns away.
pub proof fn lemma_fields_grow(s: BuildView, model: ModelId, fields: Seq<Field>, prefix: Seq<char>)
    ensures
        s.table.columns.len() <= child_fields(s, model, fields, prefix).table.columns.len(),
    decreases fields.len(),
{
    if fields.len() > 0 {
        lemma_fields_grow(s, model, fields.drop_last(), prefix);
    }
}

/// Children take no columns away.
pub proof fn lemma_children_grow(s: BuildView, children: Seq<&Model>, root: ModelId)
    ensures
        s.table.columns.len() <= add_children(s, children, root).table.columns.len(),
    decreases children.len(),
{
    if children.len() > 0 {
        let u = add_children(s, children.drop_last(), root);
        let last = *children.last();
        lemma_children_grow(s, children.drop_last(), root);
        lemma_fields_grow(u, last.id, last.fields@, last.name.snake_case@);
        lemma_columns_bound(u, last, root);
    }
}

/// The column for the model name is added like any other.
pub proof fn lemma_add_model_column(
    s: BuildView,
    db: Capability,
    root: Model,
    children: Seq<&Model>,
)
    requires
        indexed(s.table),
        key_index_place(s.table.indices) is Some,
        s.table.columns.len() < usize::MAX,
    ensures
        ({
            let t = add_model_column(s, db, root, children);
            &&& extends(s, t)
            &&& t.mapping == s.mapping
            &&& indexed(t.table)
            &&& key_index_place(t.table.indices) is Some
        }),
{
    let t = add_model_column(s, db, root, children);
    let column = model_column(s.table, db, root, children);
    let u = TableView { columns: s.table.columns.push(column), ..s.table };
    lemma_indexed(s.table, u);
    lemma_with_key_column(
        u,
        IndexColumn { column: column.id, op: IndexOp::Eq, scope: IndexScope::Local },
    );
    assert forall|m: ModelId, i: int| placed(s, m, i) implies #[trigger] placed(t, m, i) by {}
    assert(extends(s, t));
}

proof fn lemma_tag_models(s: BuildView, models: Seq<&Model>, column: ColumnId)
    requires
        forall|k: int| 0 <= k < models.len() ==> s.mapping.contains_key((#[trigger] models[k]).id),
    ensures
        tag_models(s, models, column).mapping.dom() == s.mapping.dom(),
        tag_models(s, models, column).table == s.table,
    decreases models.len(),
{
    if models.len() > 0 {
        let rest = models.drop_last();
        assert forall|k: int| 0 <= k < rest.len() implies s.mapping.contains_key(
            (#[trigger] rest[k]).id,
        ) by {
            assert(rest[k] == models[k]);
        }
        lemma_tag_models(s, rest, column);
        assert(s.mapping.contains_key(models[models.len() - 1].id));
        assert(tag_models(s, models, column).mapping.dom() =~= s.mapping.dom());
    }
}

impl<'a> BuildTableFromModels<'a> {
    /// Builds the table of a root model and the children in its item collection.
    pub fn build(&mut self, model: &Model, item_collection_children: Vec<&Model>)
        requires
            table_ready(old(self).state(), *model, item_collection_children@),
        ensures
            final(self).state() == built(
                old(self).state(),
                *old(self).db,
                old(self).prefix_table_names,
                *model,
                item_collection_children@,
            ),
            final(self).db == old(self).db,
            final(self).prefix_table_names == old(self).prefix_table_names,
            *final(final(self).table) == *final(old(self).table),
            *final(final(self).mapping) == *final(old(self).mapping),
    {
        let ghost start = self.state();
        let ghost children = item_collection_children@;
        let ghost prefixed = self.prefix_table_names;
        let has_children = item_collection_children.len() > 0;

        // Populate the rest of the columns
        self.map_model_fields(model, has_children);
        let ghost a = self.state();
        proof {
            lemma_add_root(start, *model, prefixed, has_children);
            lemma_key_index_place(a.table.indices);
        }
        let model_column = self.map_model_column(model, &item_collection_children);
        let ghost b = self.state();
        proof {
            if has_children {
                lemma_add_model_column(a, *self.db, *model, children);
                lemma_extends_trans(start, a, b);
                lemma_all_placed(a, b, model.fields@);
            }
        }

        assert(self.table.columns.len() == self.table@.columns.len());
        let mut i: usize = 0;
        assert(children.take(0) =~= Seq::<&Model>::empty());
        while i < item_collection_children.len()
            invariant
                i <= children.len(),
                children == item_collection_children@,
                table_ready(start, *model, children),
                children.len() > 0 ==> {
                    &&& extends(start, b)
                    &&& all_placed(b, model.fields@)
                    &&& indexed(b.table)
                    &&& key_index_place(b.table.indices) is Some
                },
                self.state() == add_children(b, children.take(i as int), model.id),
                self.state().table.columns.len() <= usize::MAX,
                self.db == old(self).db,
                self.prefix_table_names == old(self).prefix_table_names,
                *final(self.table) == *final(old(self).table),
                *final(self.mapping) == *final(old(self).mapping),
            decreases children.len() - i,
        {
            proof {
                let done = children.take(i as int);
                assert forall|j: int| 0 <= j < done.len() implies child_fits(
                    start.mapping,
                    *model,
                    done.take(j),
                    *(#[trigger] done[j]),
                ) by {
                    assert(done[j] == children[j]);
                    assert(done.take(j) =~= children.take(j));
                }
                lemma_add_children(start, b, *model, done);
                assert(child_fits(start.mapping, *model, done, *children[i as int]));
                lemma_child_fits(start, self.state(), *model, done, *children[i as int]);
                assert(children.take(i + 1).drop_last() =~= done);
            }
            self.map_item_collection_child(item_collection_children[i], model);
            i = i + 1;
        }
        assert(children.take(i as int) =~= children);
        proof {
            if has_children {
                lemma_add_children(start, b, *model, children);
            }
        }
        self.update_index_names();
        match model_column {
            Some(column_id) => {
                let ghost d = self.state();
                assert(d.mapping.contains_key(model.id));
                self.add_model_column_to_mapping(model, &column_id);
                let ghost e = self.state();
                let mut j: usize = 0;
                assert(children.take(0) =~= Seq::<&Model>::empty());
                proof {
                    assert(e.mapping.dom() =~= start.mapping.dom());
                    assert forall|k: int| 0 <= k < children.len() implies e.mapping.contains_key(
                        (#[trigger] children[k]).id,
                    ) by {
                        assert(child_fits(start.mapping, *model, children.take(k), *children[k]));
                    }
                }
                while j < item_collection_children.len()
                    invariant
                        j <= children.len(),
                        children == item_collection_children@,
                        forall|k: int|
                            0 <= k < children.len() ==> e.mapping.contains_key(
                                (#[trigger] children[k]).id,
                            ),
                        self.state() == tag_models(e, children.take(j as int), column_id),
                        self.db == old(self).db,
                        self.prefix_table_names == old(self).prefix_table_names,
                        *final(self.table) == *final(old(self).table),
                        *final(self.mapping) == *final(old(self).mapping),
                    decreases children.len() - j,
                {
                    proof {
                        let done = children.take(j as int);
                        assert forall|k: int| 0 <= k < done.len() implies e.mapping.contains_key(
                            (#[trigger] done[k]).id,
                        ) by {
                            assert(done[k] == children[k]);
                        }
                        lemma_tag_models(e, done, column_id);
                        assert(e.mapping.contains_key(children[j as int].id));
                        assert(children.take(j + 1).drop_last() =~= done);
                    }
                    self.add_model_column_to_mapping(item_collection_children[j], &column_id);
                    j = j + 1;
                }
                assert(children.take(j as int) =~= children);
            },
            None => {},
        }
    }

    /// Names every index after its table and its columns.
    pub fn update_index_names(&mut self)
        requires
            indexed(old(self).state().table),
        ensures
            final(self).state() == (BuildView {
                table: named(old(self).state().table),
                ..old(self).state()
            }),
            final(self).db == old(self).db,
            final(self).prefix_table_names == old(self).prefix_table_names,
            *final(final(self).table) == *final(old(self).table),
            *final(final(self).mapping) == *final(old(self).mapping),
    {
        let ghost start = self.state();
        let ghost table = start.table;
        let n: usize = self.table.indices.len();
        let mut i: usize = 0;
        while i < n
            invariant
                i <= n,
                n == table.indices.len(),
                start == old(self).state(),
                table == start.table,
                indexed(table),
                self.state().mapping == start.mapping,
                self.state().table == (TableView {
                    indices: self.state().table.indices,
                    ..table
                }),
                self.state().table.indices.len() == n,
                forall|k: int|
                    0 <= k < i ==> (#[trigger] self.state().table.indices[k])
                        == named(table).indices[k],
                forall|k: int|
                    i <= k < n ==> (#[trigger] self.state().table.indices[k]) == table.indices[k],
                self.db == old(self).db,
                self.prefix_table_names == old(self).prefix_table_names,
                *final(self.table) == *final(old(self).table),
                *final(self.mapping) == *final(old(self).mapping),
            decreases n - i,
        {
            let ghost before = self.state().table;
            assert(before.indices[i as int] == table.indices[i as int]);
            let name = self.describe_index(i);
            self.table.indices[i].name = name;
            proof {
                let after = self.state().table;
                assert(after.columns =~= before.columns);
                assert(after.indices[i as int] =~= named(table).indices[i as int]);
                assert forall|k: int| 0 <= k < n && k != i implies #[trigger] after.indices[k]
                    == before.indices[k] by {
                    assert(after.indices[k] == self.table.indices@[k]@);
                }
                assert(after =~= TableView { indices: after.indices, ..table });
            }
            i = i + 1;
        }
        assert(self.state().table.indices =~= named(table).indices);
    }

    /// The name of the index at the given place.
    fn describe_index(&self, place: usize) -> (r: String)
        requires
            place < self.state().table.indices.len(),
            forall|j: int|
                0 <= j < self.state().table.indices[place as int].columns.len()
                    ==> self.state().table.has_column(
                    (#[trigger] self.state().table.indices[place as int].columns[j]).column,
                ),
        ensures
            r@ == index_name(
                self.state().table,
                self.state().table.indices[place as int].columns,
            ),
    {
        let index = &self.table.indices[place];
        let ghost table = self.table@;
        let ghost columns = index.columns@;
        let mut name = "index_".to_string();
        name.append(self.table.name.as_str());
        name.append("_by");
        let ghost head = name@;
        let mut i: usize = 0;
        assert(columns == self.state().table.indices[place as int].columns);
        assert(head + column_list(table.columns, columns.take(0)) =~= head);
        while i < index.columns.len()
            invariant
                i <= columns.len(),
                columns == index.columns@,
                table == self.table@,
                forall|j: int|
                    0 <= j < columns.len() ==> table.has_column((#[trigger] columns[j]).column),
                name@ == head + column_list(table.columns, columns.take(i as int)),
            decreases columns.len() - i,
        {
            let column = self.table.column(index.columns[i].column);
            let ghost done = name@;
            if i > 0 {
                name.append("_and");
            }
            name.append("_");
            name.append(column.name.as_str());
            proof {
                assert(columns.take(i + 1).drop_last() =~= columns.take(i as int));
                assert(name@ =~= head + column_list(table.columns, columns.take(i + 1)));
            }
            i = i + 1;
        }
        assert(columns.take(i as int) =~= columns);
        name
    }

    /// Lets the model's rows carry its name in the given column.
    pub fn add_model_column_to_mapping(&mut self, model: &Model, column: &ColumnId)
        requires
            old(self).state().mapping.contains_key(model.id),
        ensures
            final(self).state() == tag_model(old(self).state(), *model, *column),
            final(self).db == old(self).db,
            final(self).prefix_table_names == old(self).prefix_table_names,
            *final(final(self).table) == *final(old(self).table),
            *final(final(self).mapping) == *final(old(self).mapping),
    {
        let mapping = self.mapping.model_mut(model.id);
        mapping.item_collection.model_column = Some(*column);
        mapping.columns.push(*column);
        mapping.model_to_table.push(Expr::Value(Value::String(model.name.camel_case())));
    }
}

} // verus!

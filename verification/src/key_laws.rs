//! What holds of the columns and the key of every table that is built.

use crate::app::{self, Field, FieldId, FieldTy, Model, ModelId};
use crate::build_children::{
    add_child, child_field_ready, child_fields, child_indices, child_key_fields, child_ready,
    indexed, key_index_place, lemma_all_placed, lemma_child_field, lemma_child_field_ready,
    lemma_child_fields, lemma_key_index_place, model_column,
};
use crate::build_collection::{
    add_children, add_model_column, built, child_field_fits, child_fits, children_fit,
    has_primitive_at, lemma_add_children, lemma_add_model_column, lemma_add_root, lemma_child_fits,
    lemma_children_grow, lemma_columns_bound, lemma_fields_grow, named, parent_fits, table_ready,
    tag_model,
};
use crate::build_mapping::{Lowering, lemma_lower_fields};
use crate::build_table::{
    BuildView, Capability, add_root, all_placed, extends, lemma_add_indices, lemma_extends_trans,
    lemma_ready, map_model, root_fields, root_prefix,
};
use crate::build_tables::lemma_tags_table;
use crate::db::{ColumnId, TableView};
use crate::mapping::ModelView;
use crate::stmt::Type;
use crate::table_laws::{
    appended, distinct_models, lemma_add_child_lowered, lemma_child_indices_append,
    lemma_key_fields_append, lemma_rest_fits, lemma_tags_append,
};
use vstd::prelude::*;

verus! {

/// Whether every field of the child that is linked to a parent's field is stored
/// in that field's column.
pub open spec fn shares_columns(s: BuildView, model: Model) -> bool {
    forall|i: int|
        0 <= i < model.fields@.len() && s.mapping[model.id].is_linked(
            (#[trigger] model.fields@[i]).id,
        ) ==> s.mapping[model.id].column_of(i) == parent_column(s, model.id, model.fields@[i].id)
}

/// The column of the parent's field that a field is linked to.
pub open spec fn parent_column(s: BuildView, model: ModelId, field: FieldId) -> ColumnId {
    let parent = s.mapping[model].parent_field(field);
    s.mapping[parent.model].column_of(parent.index as int)
}

/// Whether no field of the child is linked to a field of the child itself.
pub open spec fn parents_differ(mapping: ModelView, model: Model) -> bool {
    forall|i: int|
        0 <= i < model.fields@.len() && mapping.is_linked((#[trigger] model.fields@[i]).id)
            ==> mapping.parent_field(model.fields@[i].id).model != model.id
}

proof fn lemma_child_fields_share(s: BuildView, model: Model, n: int, prefix: Seq<char>)
    requires
        app::fields_numbered(model),
        s.mapping.contains_key(model.id),
        parents_differ(s.mapping[model.id], model),
        0 <= n <= model.fields@.len(),
        child_fields(s, model.id, model.fields@.take(n), prefix).table.columns.len() <= usize::MAX,
        forall|i: int|
            0 <= i < model.fields@.len() ==> child_field_ready(
                s,
                model.id,
                #[trigger] model.fields@[i],
            ),
    ensures
        ({
            let t = child_fields(s, model.id, model.fields@.take(n), prefix);
            forall|i: int|
                0 <= i < n && s.mapping[model.id].is_linked((#[trigger] model.fields@[i]).id)
                    ==> t.mapping[model.id].stores(i) && t.mapping[model.id].column_of(i)
                    == parent_column(s, model.id, model.fields@[i].id)
        }),
    decreases n,
{
    let fields = model.fields@;
    let bound: usize = model.fields.len();
    if n > 0 {
        let u = child_fields(s, model.id, fields.take(n - 1), prefix);
        let t = child_fields(s, model.id, fields.take(n), prefix);
        let last = fields[n - 1];
        assert(fields.take(n).drop_last() =~= fields.take(n - 1));
        assert(fields.take(n).last() == last);
        assert forall|k: int| 0 <= k < n - 1 implies (#[trigger] fields.take(n - 1)[k]).id.model
            == model.id && child_field_ready(s, model.id, fields.take(n - 1)[k]) by {
            assert(fields.take(n - 1)[k] == fields[k]);
        }
        lemma_child_fields_share(s, model, n - 1, prefix);
        lemma_child_fields(s, model.id, fields.take(n - 1), prefix);
        assert(child_field_ready(s, model.id, fields[n - 1]));
        lemma_child_field_ready(s, u, model.id, last);
        lemma_child_field(u, model.id, last, prefix);
        assert forall|i: int|
            0 <= i < n && s.mapping[model.id].is_linked((#[trigger] fields[i]).id) implies t.mapping[model.id].stores(
            i,
        ) && t.mapping[model.id].column_of(i) == parent_column(s, model.id, fields[i].id) by {
            let parent = s.mapping[model.id].parent_field(fields[i].id);
            assert(parent.model != model.id);
            assert(fields[i].id.index == i);
            assert(u.mapping[parent.model] == s.mapping[parent.model]);
            if i < n - 1 {
                assert(u.mapping[model.id].stores(i));
                assert(t.mapping[model.id].fields[i] == u.mapping[model.id].fields[i]);
            }
        }
    }
}

/// Adding a child lets it share the columns of its parents.
proof fn lemma_add_child_shares(s: BuildView, model: Model, root: ModelId)
    requires
        child_ready(s, model),
        s.mapping.contains_key(root),
        key_index_place(s.table.indices) is Some,
        parents_differ(s.mapping[model.id], model),
        add_child(s, model, root).table.columns.len() <= usize::MAX,
    ensures
        shares_columns(add_child(s, model, root), model),
{
    let fields = model.fields@;
    let a = child_fields(s, model.id, fields, model.name.snake_case@);
    let b = map_model(a, model);
    let t = add_child(s, model, root);
    let bound: usize = model.fields.len();
    lemma_columns_bound(s, model, root);
    assert(fields.take(fields.len() as int) =~= fields);
    lemma_child_fields_share(s, model, fields.len() as int, model.name.snake_case@);
    assert forall|k: int| 0 <= k < fields.len() implies (#[trigger] fields[k]).id.model == model.id
        && child_field_ready(s, model.id, fields[k]) by {
        assert(fields[k] == model.fields@[k]);
    }
    lemma_child_fields(s, model.id, fields, model.name.snake_case@);
    assert forall|k: int| 0 <= k < fields.len() implies ((#[trigger] model.fields@[k]).ty matches
        FieldTy::Primitive(p) ==> p.ty != Type::Null) by {
        assert(child_field_ready(s, model.id, model.fields@[k]));
    }
    lemma_ready(a, model);
    lemma_lower_fields(
        a.table,
        Lowering {
            mapping: a.mapping[model.id],
            columns: Seq::empty(),
            exprs: Seq::empty(),
        },
        fields,
    );
    lemma_child_indices_append(b, model.id, root, model.indices@);
    assert(appended(b.mapping[model.id], t.mapping[model.id]));
    assert forall|i: int|
        0 <= i < fields.len() && t.mapping[model.id].is_linked(
            (#[trigger] model.fields@[i]).id,
        ) implies t.mapping[model.id].column_of(i) == parent_column(t, model.id, model.fields@[i].id) by {
        let parent = s.mapping[model.id].parent_field(fields[i].id);
        assert(t.mapping[model.id].links == s.mapping[model.id].links);
        assert(s.mapping[model.id].is_linked(fields[i].id));
        assert(a.mapping[model.id].stores(i));
        assert(b.mapping[model.id].fields[i] is Some);
        assert(parent.model != model.id);
        assert(a.mapping[parent.model] == s.mapping[parent.model]);
        assert(b.mapping[parent.model] == s.mapping[parent.model]);
        assert(appended(b.mapping[parent.model], t.mapping[parent.model]));
    }
}

proof fn lemma_shares_kept(s: BuildView, t: BuildView, model: Model)
    requires
        shares_columns(s, model),
        appended(s.mapping[model.id], t.mapping[model.id]),
        forall|i: int|
            0 <= i < model.fields@.len() && s.mapping[model.id].is_linked(
                (#[trigger] model.fields@[i]).id,
            ) ==> appended(
                s.mapping[s.mapping[model.id].parent_field(model.fields@[i].id).model],
                t.mapping[s.mapping[model.id].parent_field(model.fields@[i].id).model],
            ),
    ensures
        shares_columns(t, model),
{
    assert forall|i: int|
        0 <= i < model.fields@.len() && t.mapping[model.id].is_linked(
            (#[trigger] model.fields@[i]).id,
        ) implies t.mapping[model.id].column_of(i) == parent_column(t, model.id, model.fields@[i].id) by {
        let parent = s.mapping[model.id].parent_field(model.fields@[i].id);
        assert(s.mapping[model.id].is_linked(model.fields@[i].id));
        assert(appended(s.mapping[parent.model], t.mapping[parent.model]));
    }
}

/// A parent that fits is the root or an earlier child.
proof fn lemma_parent_among(root: Model, earlier: Seq<&Model>, parent: FieldId)
    requires
        parent_fits(root, earlier, parent),
    ensures
        parent.model == root.id || exists|k: int|
            0 <= k < earlier.len() && (#[trigger] earlier[k]).id == parent.model,
{
    if !has_primitive_at(root, parent) {
        let k = choose|k: int|
            0 <= k < earlier.len() && has_primitive_at(*(#[trigger] earlier[k]), parent);
        assert(earlier[k].id == parent.model);
    }
}

proof fn lemma_children_share(start: BuildView, s: BuildView, root: Model, children: Seq<&Model>)
    requires
        extends(start, s),
        start.mapping.contains_key(root.id),
        app::fields_numbered(root),
        all_placed(s, root.fields@),
        indexed(s.table),
        key_index_place(s.table.indices) is Some,
        children_fit(start.mapping, root, children),
        distinct_models(root, children),
        add_children(s, children, root.id).table.columns.len() <= usize::MAX,
    ensures
        forall|k: int|
            0 <= k < children.len() ==> shares_columns(
                add_children(s, children, root.id),
                *(#[trigger] children[k]),
            ),
    decreases children.len(),
{
    if children.len() > 0 {
        let rest = children.drop_last();
        let last = *children.last();
        let n = children.len() - 1;
        let u = add_children(s, rest, root.id);
        let t = add_children(s, children, root.id);
        lemma_fields_grow(u, last.id, last.fields@, last.name.snake_case@);
        lemma_columns_bound(u, last, root.id);
        lemma_rest_fits(start.mapping, root, children);
        assert forall|j: int, k: int| 0 <= j < k < rest.len() implies (#[trigger] rest[j]).id != (
        #[trigger] rest[k]).id by {
            assert(rest[j] == children[j] && rest[k] == children[k]);
        }
        assert forall|j: int| 0 <= j < rest.len() implies (#[trigger] rest[j]).id != root.id by {
            assert(rest[j] == children[j]);
        }
        lemma_children_share(start, s, root, rest);
        lemma_add_children(start, s, root, rest);
        lemma_child_fits(start, u, root, rest, last);
        assert(children[n].id != root.id);
        assert(parents_differ(u.mapping[last.id], last)) by {
            assert forall|i: int|
                0 <= i < last.fields@.len() && u.mapping[last.id].is_linked(
                    (#[trigger] last.fields@[i]).id,
                ) implies u.mapping[last.id].parent_field(last.fields@[i].id).model != last.id by {
                assert(child_field_fits(
                    start.mapping,
                    root,
                    rest,
                    last.id,
                    last.fields@[i],
                ));
                let parent = start.mapping[last.id].parent_field(last.fields@[i].id);
                lemma_parent_among(root, rest, parent);
                if parent.model != root.id {
                    let k = choose|k: int|
                        0 <= k < rest.len() && (#[trigger] rest[k]).id == parent.model;
                    assert(children[k].id != children[n].id);
                }
            }
        }
        lemma_add_child_shares(u, last, root.id);
        lemma_add_child_lowered(u, last, root.id);
        assert forall|k: int| 0 <= k < children.len() implies shares_columns(
            t,
            *(#[trigger] children[k]),
        ) by {
            if k < n {
                let model = *children[k];
                assert(rest[k] == children[k]);
                assert(children[k].id != children[n].id);
                assert(child_fits(start.mapping, root, children.take(k), *children[k]));
                assert(appended(u.mapping[model.id], t.mapping[model.id]));
                assert forall|i: int|
                    0 <= i < model.fields@.len() && u.mapping[model.id].is_linked(
                        (#[trigger] model.fields@[i]).id,
                    ) implies appended(
                    u.mapping[u.mapping[model.id].parent_field(model.fields@[i].id).model],
                    t.mapping[u.mapping[model.id].parent_field(model.fields@[i].id).model],
                ) by {
                    assert(child_field_fits(
                        start.mapping,
                        root,
                        children.take(k),
                        model.id,
                        model.fields@[i],
                    ));
                    let parent = start.mapping[model.id].parent_field(model.fields@[i].id);
                    assert(u.mapping[model.id].links == start.mapping[model.id].links);
                    lemma_parent_among(root, children.take(k), parent);
                    if parent.model != root.id {
                        let j = choose|j: int|
                            0 <= j < children.take(k).len() && (#[trigger] children.take(k)[j]).id
                                == parent.model;
                        assert(children[j].id != children[n].id);
                    }
                }
                lemma_shares_kept(u, t, model);
            }
        }
    }
}

/// A child's field that refers to a parent is stored in the parent's column, so
/// that a child's row carries the key of its parent.
pub proof fn law_child_shares_parent_columns(
    s: BuildView,
    db: Capability,
    prefixed: bool,
    root: Model,
    children: Seq<&Model>,
    k: int,
)
    requires
        table_ready(s, root, children),
        distinct_models(root, children),
        built(s, db, prefixed, root, children).table.columns.len() <= usize::MAX,
        0 <= k < children.len(),
    ensures
        shares_columns(built(s, db, prefixed, root, children), *children[k]),
{
    let a = add_root(s, root, prefixed, true);
    let t = built(s, db, prefixed, root, children);
    let column = model_column(a.table, db, root, children).id;
    let b = add_model_column(a, db, root, children);
    let c = add_children(b, children, root.id);
    let d = BuildView { table: named(c.table), ..c };
    let e = tag_model(d, root, column);
    lemma_tags_table(e, children, column);
    lemma_children_grow(b, children, root.id);
    lemma_add_root(s, root, prefixed, true);
    lemma_key_index_place(a.table.indices);
    lemma_add_model_column(a, db, root, children);
    lemma_extends_trans(s, a, b);
    lemma_all_placed(a, b, root.fields@);
    lemma_children_share(s, b, root, children);
    lemma_tags_append(e, children, column);
    let model = *children[k];
    assert forall|m: ModelId| #[trigger] appended(c.mapping[m], t.mapping[m]) by {
        assert(appended(e.mapping[m], t.mapping[m]));
        assert(appended(c.mapping[m], e.mapping[m]));
    }
    assert(appended(c.mapping[model.id], t.mapping[model.id]));
    lemma_shares_kept(c, t, model);
}

/// Whether every column's identifier names the table and the column's position.
pub open spec fn columns_numbered(table: TableView) -> bool {
    forall|i: int|
        0 <= i < table.columns.len() ==> (#[trigger] table.columns[i]).id == (ColumnId {
            table: table.id,
            index: i as usize,
        })
}

proof fn lemma_root_fields_numbered(
    s: BuildView,
    fields: Seq<Field>,
    prefix: Option<Seq<char>>,
    has_children: bool,
)
    requires
        columns_numbered(s.table),
    ensures
        columns_numbered(root_fields(s, fields, prefix, has_children).table),
        root_fields(s, fields, prefix, has_children).table.id == s.table.id,
    decreases fields.len(),
{
    if fields.len() > 0 {
        lemma_root_fields_numbered(s, fields.drop_last(), prefix, has_children);
    }
}

proof fn lemma_child_fields_numbered(
    s: BuildView,
    model: ModelId,
    fields: Seq<Field>,
    prefix: Seq<char>,
)
    requires
        columns_numbered(s.table),
    ensures
        columns_numbered(child_fields(s, model, fields, prefix).table),
        child_fields(s, model, fields, prefix).table.id == s.table.id,
    decreases fields.len(),
{
    if fields.len() > 0 {
        lemma_child_fields_numbered(s, model, fields.drop_last(), prefix);
    }
}

proof fn lemma_child_indices_id(
    s: BuildView,
    model: ModelId,
    root: ModelId,
    indices: Seq<app::Index>,
)
    ensures
        child_indices(s, model, root, indices).table.id == s.table.id,
    decreases indices.len(),
{
    if indices.len() > 0 {
        let u = child_indices(s, model, root, indices.drop_last());
        lemma_child_indices_id(s, model, root, indices.drop_last());
        if indices.last().primary_key {
            lemma_key_fields_id(u, model, root, indices.last().fields@);
        }
    }
}

proof fn lemma_key_fields_id(
    s: BuildView,
    model: ModelId,
    root: ModelId,
    fields: Seq<app::IndexField>,
)
    ensures
        child_key_fields(s, model, root, fields).table.id == s.table.id,
    decreases fields.len(),
{
    if fields.len() > 0 {
        lemma_key_fields_id(s, model, root, fields.drop_last());
    }
}

proof fn lemma_children_numbered(s: BuildView, children: Seq<&Model>, root: ModelId)
    requires
        columns_numbered(s.table),
    ensures
        columns_numbered(add_children(s, children, root).table),
    decreases children.len(),
{
    if children.len() > 0 {
        let u = add_children(s, children.drop_last(), root);
        let model = *children.last();
        lemma_children_numbered(s, children.drop_last(), root);
        lemma_child_fields_numbered(u, model.id, model.fields@, model.name.snake_case@);
        let b = map_model(
            child_fields(u, model.id, model.fields@, model.name.snake_case@),
            model,
        );
        lemma_child_indices_append(b, model.id, root, model.indices@);
        lemma_child_indices_id(b, model.id, root, model.indices@);
    }
}

/// Every column of a built table stands at the position that its identifier says.
pub proof fn law_columns_are_numbered(
    s: BuildView,
    db: Capability,
    prefixed: bool,
    root: Model,
    children: Seq<&Model>,
)
    requires
        columns_numbered(s.table),
    ensures
        columns_numbered(built(s, db, prefixed, root, children).table),
{
    let a = add_root(s, root, prefixed, children.len() > 0);
    lemma_root_fields_numbered(
        s,
        root.fields@,
        root_prefix(root, prefixed),
        children.len() > 0,
    );
    let b = map_model(
        root_fields(s, root.fields@, root_prefix(root, prefixed), children.len() > 0),
        root,
    );
    lemma_add_indices(b, root.id, root.indices@);
    if children.len() > 0 {
        let column = model_column(a.table, db, root, children).id;
        let c = add_model_column(a, db, root, children);
        lemma_children_numbered(c, children, root.id);
        let d = add_children(c, children, root.id);
        let e = BuildView { table: named(d.table), ..d };
        lemma_tags_table(tag_model(e, root, column), children, column);
    }
}

/// Whether the column of an index field, unless it is linked to a parent's field, is
/// part of the table's primary key.
pub open spec fn is_keyed_by(s: BuildView, model: ModelId, field: app::IndexField) -> bool {
    s.mapping[model].is_linked(field.field) || s.table.key_columns.contains(
        s.mapping[model].column_of(field.field.index as int),
    )
}

/// Whether all the index fields' columns are part of the table's primary key.
pub open spec fn all_keyed_by(
    s: BuildView,
    model: ModelId,
    fields: Seq<app::IndexField>,
) -> bool {
    forall|i: int| 0 <= i < fields.len() ==> is_keyed_by(s, model, #[trigger] fields[i])
}

/// Whether the columns of all primary keys among the indices are part of the
/// table's.
pub open spec fn keys_join(s: BuildView, model: ModelId, indices: Seq<app::Index>) -> bool {
    forall|i: int|
        0 <= i < indices.len() && (#[trigger] indices[i]).primary_key ==> all_keyed_by(
            s,
            model,
            indices[i].fields@,
        )
}

proof fn lemma_contains_kept(s: Seq<ColumnId>, t: Seq<ColumnId>, id: ColumnId)
    requires
        s.is_prefix_of(t),
        s.contains(id),
    ensures
        t.contains(id),
{
    let i = s.index_of(id);
    assert(t[i] == t.subrange(0, s.len() as int)[i]);
    assert(t[i] == id);
}

proof fn lemma_keys_join_kept(
    s: BuildView,
    t: BuildView,
    model: ModelId,
    indices: Seq<app::Index>,
)
    requires
        keys_join(s, model, indices),
        s.table.key_columns.is_prefix_of(t.table.key_columns),
        appended(s.mapping[model], t.mapping[model]),
    ensures
        keys_join(t, model, indices),
{
    assert forall|i: int|
        0 <= i < indices.len() && (#[trigger] indices[i]).primary_key implies all_keyed_by(
        t,
        model,
        indices[i].fields@,
    ) by {
        let fields = indices[i].fields@;
        assert(all_keyed_by(s, model, fields));
        lemma_all_keyed_kept(s, t, model, fields);
    }
}

proof fn lemma_all_keyed_kept(
    s: BuildView,
    t: BuildView,
    model: ModelId,
    fields: Seq<app::IndexField>,
)
    requires
        all_keyed_by(s, model, fields),
        s.table.key_columns.is_prefix_of(t.table.key_columns),
        appended(s.mapping[model], t.mapping[model]),
    ensures
        all_keyed_by(t, model, fields),
{
    assert forall|k: int| 0 <= k < fields.len() implies is_keyed_by(t, model, #[trigger] fields[k]) by {
        assert(is_keyed_by(s, model, fields[k]));
        if !s.mapping[model].is_linked(fields[k].field) {
            lemma_contains_kept(
                s.table.key_columns,
                t.table.key_columns,
                s.mapping[model].column_of(fields[k].field.index as int),
            );
        }
    }
}

proof fn lemma_key_fields_join(
    s: BuildView,
    model: ModelId,
    root: ModelId,
    fields: Seq<app::IndexField>,
)
    ensures
        all_keyed_by(child_key_fields(s, model, root, fields), model, fields),
        s.table.key_columns.is_prefix_of(
            child_key_fields(s, model, root, fields).table.key_columns,
        ),
    decreases fields.len(),
{
    if fields.len() > 0 {
        let rest = fields.drop_last();
        let u = child_key_fields(s, model, root, rest);
        let t = child_key_fields(s, model, root, fields);
        lemma_key_fields_join(s, model, root, rest);
        let last = fields[fields.len() - 1];
        assert(appended(u.mapping[model], t.mapping[model]));
        assert(u.table.key_columns.is_prefix_of(t.table.key_columns));
        lemma_all_keyed_kept(u, t, model, rest);
        assert forall|k: int| 0 <= k < fields.len() implies is_keyed_by(
            t,
            model,
            #[trigger] fields[k],
        ) by {
            if k < rest.len() {
                assert(rest[k] == fields[k]);
                assert(is_keyed_by(t, model, rest[k]));
            } else if !u.mapping[model].is_linked(last.field) {
                let n = u.table.key_columns.len() as int;
                assert(t.table.key_columns[n] == u.mapping[model].column_of(
                    last.field.index as int,
                ));
            }
        }
    }
}

proof fn lemma_child_indices_join(
    s: BuildView,
    model: ModelId,
    root: ModelId,
    indices: Seq<app::Index>,
)
    ensures
        keys_join(child_indices(s, model, root, indices), model, indices),
        s.table.key_columns.is_prefix_of(
            child_indices(s, model, root, indices).table.key_columns,
        ),
    decreases indices.len(),
{
    if indices.len() > 0 {
        let rest = indices.drop_last();
        let u = child_indices(s, model, root, rest);
        let t = child_indices(s, model, root, indices);
        let last = indices[indices.len() - 1];
        lemma_child_indices_join(s, model, root, rest);
        lemma_key_fields_append(u, model, root, last.fields@);
        if last.primary_key {
            lemma_key_fields_join(u, model, root, last.fields@);
        }
        assert(appended(u.mapping[model], t.mapping[model]));
        assert(u.table.key_columns.is_prefix_of(t.table.key_columns));
        lemma_keys_join_kept(u, t, model, rest);
        assert forall|i: int|
            0 <= i < indices.len() && (#[trigger] indices[i]).primary_key implies all_keyed_by(
            t,
            model,
            indices[i].fields@,
        ) by {
            if i < rest.len() {
                assert(rest[i] == indices[i]);
                assert(all_keyed_by(t, model, rest[i].fields@));
            }
        }
    }
}

proof fn lemma_child_fields_keep_key(
    s: BuildView,
    model: ModelId,
    fields: Seq<Field>,
    prefix: Seq<char>,
)
    ensures
        child_fields(s, model, fields, prefix).table.key_columns == s.table.key_columns,
    decreases fields.len(),
{
    if fields.len() > 0 {
        lemma_child_fields_keep_key(s, model, fields.drop_last(), prefix);
    }
}

proof fn lemma_add_child_joins(s: BuildView, model: Model, root: ModelId)
    ensures
        keys_join(add_child(s, model, root), model.id, model.indices@),
        s.table.key_columns.is_prefix_of(add_child(s, model, root).table.key_columns),
{
    let a = child_fields(s, model.id, model.fields@, model.name.snake_case@);
    lemma_child_fields_keep_key(s, model.id, model.fields@, model.name.snake_case@);
    lemma_child_indices_join(map_model(a, model), model.id, root, model.indices@);
}

proof fn lemma_children_join(start: BuildView, s: BuildView, root: Model, children: Seq<&Model>)
    requires
        extends(start, s),
        start.mapping.contains_key(root.id),
        app::fields_numbered(root),
        all_placed(s, root.fields@),
        indexed(s.table),
        key_index_place(s.table.indices) is Some,
        children_fit(start.mapping, root, children),
        distinct_models(root, children),
        add_children(s, children, root.id).table.columns.len() <= usize::MAX,
    ensures
        forall|k: int|
            0 <= k < children.len() ==> keys_join(
                add_children(s, children, root.id),
                (#[trigger] children[k]).id,
                children[k].indices@,
            ),
    decreases children.len(),
{
    if children.len() > 0 {
        let rest = children.drop_last();
        let last = *children.last();
        let n = children.len() - 1;
        let u = add_children(s, rest, root.id);
        let t = add_children(s, children, root.id);
        lemma_fields_grow(u, last.id, last.fields@, last.name.snake_case@);
        lemma_columns_bound(u, last, root.id);
        lemma_rest_fits(start.mapping, root, children);
        assert forall|j: int, k: int| 0 <= j < k < rest.len() implies (#[trigger] rest[j]).id != (
        #[trigger] rest[k]).id by {
            assert(rest[j] == children[j] && rest[k] == children[k]);
        }
        assert forall|j: int| 0 <= j < rest.len() implies (#[trigger] rest[j]).id != root.id by {
            assert(rest[j] == children[j]);
        }
        lemma_children_join(start, s, root, rest);
        lemma_add_children(start, s, root, rest);
        lemma_child_fits(start, u, root, rest, last);
        lemma_add_child_lowered(u, last, root.id);
        lemma_add_child_joins(u, last, root.id);
        assert forall|k: int| 0 <= k < children.len() implies keys_join(
            t,
            (#[trigger] children[k]).id,
            children[k].indices@,
        ) by {
            if k < n {
                assert(rest[k] == children[k]);
                assert(children[k].id != children[n].id);
                assert(appended(u.mapping[children[k].id], t.mapping[children[k].id]));
                lemma_keys_join_kept(u, t, children[k].id, children[k].indices@);
            }
        }
    }
}

/// Every child contributes its primary key to the table's: each of its key fields is
/// either linked to a parent's field or stored in a column of the table's key.
pub proof fn law_children_contribute_keys(
    s: BuildView,
    db: Capability,
    prefixed: bool,
    root: Model,
    children: Seq<&Model>,
    k: int,
)
    requires
        table_ready(s, root, children),
        distinct_models(root, children),
        built(s, db, prefixed, root, children).table.columns.len() <= usize::MAX,
        0 <= k < children.len(),
    ensures
        keys_join(
            built(s, db, prefixed, root, children),
            children[k].id,
            children[k].indices@,
        ),
{
    let a = add_root(s, root, prefixed, true);
    let t = built(s, db, prefixed, root, children);
    let column = model_column(a.table, db, root, children).id;
    let b = add_model_column(a, db, root, children);
    let c = add_children(b, children, root.id);
    let d = BuildView { table: named(c.table), ..c };
    let e = tag_model(d, root, column);
    lemma_tags_table(e, children, column);
    lemma_children_grow(b, children, root.id);
    lemma_add_root(s, root, prefixed, true);
    lemma_key_index_place(a.table.indices);
    lemma_add_model_column(a, db, root, children);
    lemma_extends_trans(s, a, b);
    lemma_all_placed(a, b, root.fields@);
    lemma_children_join(s, b, root, children);
    lemma_tags_append(e, children, column);
    let id = children[k].id;
    assert(appended(e.mapping[id], t.mapping[id]));
    assert(appended(c.mapping[id], e.mapping[id]));
    assert(appended(c.mapping[id], t.mapping[id]));
    lemma_keys_join_kept(c, t, id, children[k].indices@);
}

} // verus!

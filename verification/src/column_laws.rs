//! How the columns of a built table are named, and what fills them.

use crate::app::{self, Field, FieldTy, Model, ModelId};
use crate::build_children::{
    add_child, child_field_ready, child_fields, child_indices, child_key_fields, child_ready,
    indexed, key_index_place, lemma_all_placed, lemma_child_field, lemma_child_field_ready,
    lemma_child_fields, lemma_key_index_place, model_column,
};
use crate::build_collection::{
    add_children, add_model_column, built, children_fit, lemma_add_child, lemma_add_children,
    lemma_add_model_column, lemma_add_root, lemma_child_fits, lemma_children_grow,
    lemma_columns_bound, lemma_fields_grow, named, table_ready, tag_model, tag_models,
};
use crate::build_mapping::{Lowering, fields_ready, lemma_lower_fields, lower_fields};
use crate::build_table::{
    BuildView, Capability, add_root, all_placed, extends, lemma_add_indices, lemma_extends_trans,
    lemma_map_model, lemma_ready, lemma_root_fields, map_model, placed, root_fields, root_prefix,
    root_ready, storable,
};
use crate::build_tables::{lemma_built, lemma_tags_table};
use crate::db::{ColumnId, TableView};
use crate::mapping::ModelView;
use crate::stmt::Type;
use crate::table_laws::{
    appended, distinct_models, lemma_add_child_lowered, lemma_child_indices_append,
    lemma_rest_fits, lemma_tags_append,
};
use vstd::prelude::*;

verus! {

/// Whether there is an expression for each column that the model uses.
pub open spec fn aligned(mapping: ModelView) -> bool {
    mapping.columns.len() == mapping.model_to_table.len()
}

/// Whether every model that has an expression for each column in `s` has so in `t`.
pub open spec fn keeps_aligned(s: BuildView, t: BuildView) -> bool {
    forall|m: ModelId| aligned(s.mapping[m]) ==> aligned(#[trigger] t.mapping[m])
}

proof fn lemma_lower_aligned(table: TableView, s: Lowering, fields: Seq<Field>)
    requires
        s.columns.len() == s.exprs.len(),
    ensures
        lower_fields(table, s, fields).columns.len() == lower_fields(table, s, fields).exprs.len(),
    decreases fields.len(),
{
    if fields.len() > 0 {
        lemma_lower_aligned(table, s, fields.drop_last());
    }
}

/// A model that is mapped has an expression for each column.
proof fn lemma_map_aligned(s: BuildView, model: Model)
    ensures
        aligned(map_model(s, model).mapping[model.id]),
        keeps_aligned(s, map_model(s, model)),
{
    let start = Lowering {
        mapping: s.mapping[model.id],
        columns: Seq::empty(),
        exprs: Seq::empty(),
    };
    lemma_lower_aligned(s.table, start, model.fields@);
}

proof fn lemma_child_fields_aligned(
    s: BuildView,
    model: ModelId,
    fields: Seq<Field>,
    prefix: Seq<char>,
)
    ensures
        keeps_aligned(s, child_fields(s, model, fields, prefix)),
    decreases fields.len(),
{
    if fields.len() > 0 {
        lemma_child_fields_aligned(s, model, fields.drop_last(), prefix);
    }
}

proof fn lemma_key_fields_aligned(
    s: BuildView,
    model: ModelId,
    root: ModelId,
    fields: Seq<app::IndexField>,
)
    ensures
        keeps_aligned(s, child_key_fields(s, model, root, fields)),
    decreases fields.len(),
{
    if fields.len() > 0 {
        lemma_key_fields_aligned(s, model, root, fields.drop_last());
    }
}

proof fn lemma_child_indices_aligned(
    s: BuildView,
    model: ModelId,
    root: ModelId,
    indices: Seq<app::Index>,
)
    ensures
        keeps_aligned(s, child_indices(s, model, root, indices)),
    decreases indices.len(),
{
    if indices.len() > 0 {
        let u = child_indices(s, model, root, indices.drop_last());
        lemma_child_indices_aligned(s, model, root, indices.drop_last());
        if indices.last().primary_key {
            lemma_key_fields_aligned(u, model, root, indices.last().fields@);
        }
    }
}

proof fn lemma_children_aligned(s: BuildView, children: Seq<&Model>, root: ModelId)
    ensures
        keeps_aligned(s, add_children(s, children, root)),
        forall|k: int|
            0 <= k < children.len() ==> aligned(
                add_children(s, children, root).mapping[(#[trigger] children[k]).id],
            ),
    decreases children.len(),
{
    if children.len() > 0 {
        let rest = children.drop_last();
        let u = add_children(s, rest, root);
        let model = *children.last();
        let a = child_fields(u, model.id, model.fields@, model.name.snake_case@);
        let b = map_model(a, model);
        lemma_children_aligned(s, rest, root);
        lemma_child_fields_aligned(u, model.id, model.fields@, model.name.snake_case@);
        lemma_map_aligned(a, model);
        lemma_child_indices_aligned(b, model.id, root, model.indices@);
        assert forall|k: int| 0 <= k < children.len() implies aligned(
            add_children(s, children, root).mapping[(#[trigger] children[k]).id],
        ) by {
            if k < rest.len() {
                assert(rest[k] == children[k]);
                assert(aligned(u.mapping[rest[k].id]));
                assert(aligned(a.mapping[rest[k].id]));
                assert(aligned(b.mapping[rest[k].id]));
            } else {
                assert(aligned(b.mapping[model.id]));
            }
        }
        assert forall|m: ModelId| aligned(s.mapping[m]) implies aligned(
            #[trigger] add_children(s, children, root).mapping[m],
        ) by {
            assert(aligned(u.mapping[m]));
            assert(aligned(a.mapping[m]));
            assert(aligned(b.mapping[m]));
        }
    }
}

proof fn lemma_tags_aligned(s: BuildView, models: Seq<&Model>, column: ColumnId)
    ensures
        keeps_aligned(s, tag_models(s, models, column)),
    decreases models.len(),
{
    if models.len() > 0 {
        lemma_tags_aligned(s, models.drop_last(), column);
    }
}

/// In a built table each model, the root as the children, has an expression for each
/// column that it uses.
pub proof fn law_every_column_has_an_expression(
    s: BuildView,
    db: Capability,
    prefixed: bool,
    root: Model,
    children: Seq<&Model>,
)
    ensures
        aligned(built(s, db, prefixed, root, children).mapping[root.id]),
        forall|k: int|
            0 <= k < children.len() ==> aligned(
                built(s, db, prefixed, root, children).mapping[(#[trigger] children[k]).id],
            ),
{
    let has_children = children.len() > 0;
    let t = built(s, db, prefixed, root, children);
    let fields = root_fields(s, root.fields@, root_prefix(root, prefixed), has_children);
    let a = add_root(s, root, prefixed, has_children);
    lemma_map_aligned(fields, root);
    lemma_add_indices(map_model(fields, root), root.id, root.indices@);
    assert(aligned(a.mapping[root.id]));
    if has_children {
        let column = model_column(a.table, db, root, children).id;
        let b = add_model_column(a, db, root, children);
        let c = add_children(b, children, root.id);
        let d = BuildView { table: named(c.table), ..c };
        let e = tag_model(d, root, column);
        lemma_children_aligned(b, children, root.id);
        lemma_tags_aligned(e, children, column);
        assert(aligned(c.mapping[root.id]));
        assert(aligned(e.mapping[root.id]));
        assert forall|k: int| 0 <= k < children.len() implies aligned(
            t.mapping[(#[trigger] children[k]).id],
        ) by {
            assert(aligned(c.mapping[children[k].id]));
            assert(aligned(e.mapping[children[k].id]));
        }
    }
}

/// Whether the field is stored in a column of the table that is named after it, has the
/// types in which the field is stored, and may be null if `nullable`.
pub open spec fn has_own_column(
    s: BuildView,
    model: ModelId,
    field: Field,
    prefix: Option<Seq<char>>,
    nullable: bool,
) -> bool {
    let at = field.id.index as int;
    let column = s.table.columns[s.mapping[model].fields[at]->0.column.index as int];
    &&& placed(s, model, at)
    &&& column.name == match prefix {
        Some(prefix) => prefix + "__"@ + field.name@,
        None => field.name@,
    }
    &&& column.nullable == nullable
    &&& !column.primary_key
    &&& field.ty matches FieldTy::Primitive(primitive) ==> {
        &&& column.ty == primitive.storage->0.ty
        &&& column.storage_ty == primitive.storage->0.storage_ty
    }
}

/// The name of the root that its columns have before theirs, if `prefixed`.
pub open spec fn name_before(root: Model, prefixed: bool) -> Option<Seq<char>> {
    if prefixed {
        Some(root.name.snake_case@)
    } else {
        None
    }
}

/// Whether the column of a root's field may be null: where rows of other models are
/// stored too, only the fields of the primary key must be there.
pub open spec fn may_be_null(field: Field, shared: bool) -> bool {
    field.nullable || (shared && !field.primary_key)
}

/// Whether each primitive field of the root has a column that is named after it, with
/// the name of the root before it if `prefixed`, and that may be null if the field may, or
/// if rows of other models are `shared` in the table and it is not part of the primary key.
pub open spec fn root_named(s: BuildView, root: Model, prefixed: bool, shared: bool) -> bool {
    forall|i: int|
        0 <= i < root.fields@.len() && (#[trigger] root.fields@[i]).ty is Primitive
            ==> has_own_column(
            s,
            root.id,
            root.fields@[i],
            name_before(root, prefixed),
            may_be_null(root.fields@[i], shared),
        )
}

/// Whether each primitive field of a child that is not linked to a parent's field has a
/// column that is named after the child and the field, and that may be null.
pub open spec fn child_named(s: BuildView, model: Model) -> bool {
    forall|i: int|
        0 <= i < model.fields@.len() && (#[trigger] model.fields@[i]).ty is Primitive
            && !s.mapping[model.id].is_linked(model.fields@[i].id) ==> has_own_column(
            s,
            model.id,
            model.fields@[i],
            Some(model.name.snake_case@),
            true,
        )
}

/// Whether `t` stores the model's fields where `s` does.
pub open spec fn same_places(s: BuildView, t: BuildView, model: ModelId) -> bool {
    &&& s.mapping.contains_key(model) ==> t.mapping.contains_key(model)
    &&& t.mapping[model].fields.len() == s.mapping[model].fields.len()
    &&& t.mapping[model].links == s.mapping[model].links
    &&& forall|i: int|
        s.mapping[model].stores(i) ==> #[trigger] t.mapping[model].stores(i)
            && t.mapping[model].column_of(i) == s.mapping[model].column_of(i)
    &&& t.table.id == s.table.id
    &&& s.table.columns.is_prefix_of(t.table.columns)
}

proof fn lemma_own_column_kept(
    s: BuildView,
    t: BuildView,
    model: ModelId,
    field: Field,
    prefix: Option<Seq<char>>,
    nullable: bool,
)
    requires
        same_places(s, t, model),
        has_own_column(s, model, field, prefix, nullable),
    ensures
        has_own_column(t, model, field, prefix, nullable),
{
    let at = field.id.index as int;
    assert(t.mapping[model].stores(at));
    let column = s.mapping[model].column_of(at);
    assert(t.table.column(column) == s.table.column(column));
}

pub proof fn lemma_root_named_kept(
    s: BuildView,
    t: BuildView,
    root: Model,
    prefixed: bool,
    shared: bool,
)
    requires
        same_places(s, t, root.id),
        root_named(s, root, prefixed, shared),
    ensures
        root_named(t, root, prefixed, shared),
{
    assert forall|i: int|
        0 <= i < root.fields@.len() && (#[trigger] root.fields@[i]).ty is Primitive implies
        has_own_column(
        t,
        root.id,
        root.fields@[i],
        name_before(root, prefixed),
        may_be_null(root.fields@[i], shared),
    ) by {
        lemma_own_column_kept(
            s,
            t,
            root.id,
            root.fields@[i],
            name_before(root, prefixed),
            may_be_null(root.fields@[i], shared),
        );
    }
}

pub proof fn lemma_child_named_kept(s: BuildView, t: BuildView, model: Model)
    requires
        same_places(s, t, model.id),
        child_named(s, model),
    ensures
        child_named(t, model),
{
    assert forall|i: int|
        0 <= i < model.fields@.len() && (#[trigger] model.fields@[i]).ty is Primitive
            && !t.mapping[model.id].is_linked(model.fields@[i].id) implies has_own_column(
        t,
        model.id,
        model.fields@[i],
        Some(model.name.snake_case@),
        true,
    ) by {
        lemma_own_column_kept(
            s,
            t,
            model.id,
            model.fields@[i],
            Some(model.name.snake_case@),
            true,
        );
    }
}

proof fn lemma_root_fields_named(
    s: BuildView,
    root: Model,
    prefix: Option<Seq<char>>,
    has_children: bool,
    n: int,
)
    requires
        root_ready(s.mapping, root),
        0 <= n <= root.fields@.len(),
        root_fields(s, root.fields@.take(n), prefix, has_children).table.columns.len()
            <= usize::MAX,
    ensures
        forall|i: int|
            0 <= i < n && (#[trigger] root.fields@[i]).ty is Primitive ==> has_own_column(
                root_fields(s, root.fields@.take(n), prefix, has_children),
                root.id,
                root.fields@[i],
                prefix,
                may_be_null(root.fields@[i], has_children),
            ),
    decreases n,
{
    let fields = root.fields@;
    let bound: usize = root.fields.len();
    if n > 0 {
        let u = root_fields(s, fields.take(n - 1), prefix, has_children);
        let t = root_fields(s, fields.take(n), prefix, has_children);
        let last = fields[n - 1];
        assert(fields.take(n).drop_last() =~= fields.take(n - 1));
        assert(fields.take(n).last() == last);
        assert(last.id.index == n - 1);
        assert forall|k: int| 0 <= k < n - 1 implies storable(
            s.mapping,
            #[trigger] fields.take(n - 1)[k],
        ) && fields.take(n - 1)[k].id.model == root.id by {
            assert(fields.take(n - 1)[k] == fields[k]);
        }
        lemma_root_fields_named(s, root, prefix, has_children, n - 1);
        lemma_root_fields(s, fields.take(n - 1), prefix, has_children, root.id);
        assert(storable(s.mapping, fields[n - 1]));
        if last.ty is Primitive {
            assert(u.mapping[root.id].stores(n - 1));
        }
        assert forall|i: int| 0 <= i < n && (#[trigger] fields[i]).ty is Primitive implies
            has_own_column(
            t,
            root.id,
            fields[i],
            prefix,
            may_be_null(fields[i], has_children),
        ) by {
            assert(fields[i].id.index == i);
            if i < n - 1 {
                assert(has_own_column(
                    u,
                    root.id,
                    fields[i],
                    prefix,
                    may_be_null(fields[i], has_children),
                ));
                let column = u.mapping[root.id].column_of(i);
                assert(t.table.column(column) == u.table.column(column));
            }
        }
    }
}

/// Adding the root gives its fields columns that are named after them.
proof fn lemma_add_root_named(s: BuildView, root: Model, prefixed: bool, has_children: bool)
    requires
        root_ready(s.mapping, root),
        add_root(s, root, prefixed, has_children).table.columns.len() <= usize::MAX,
    ensures
        root_named(add_root(s, root, prefixed, has_children), root, prefixed, has_children),
{
    let prefix = root_prefix(root, prefixed);
    let a = root_fields(s, root.fields@, prefix, has_children);
    let b = map_model(a, root);
    lemma_add_indices(b, root.id, root.indices@);
    assert(root.fields@.take(root.fields@.len() as int) =~= root.fields@);
    lemma_root_fields_named(s, root, prefix, has_children, root.fields@.len() as int);
    lemma_root_fields(s, root.fields@, prefix, has_children, root.id);
    assert forall|i: int| 0 <= i < root.fields@.len() implies ((
    #[trigger] root.fields@[i]).ty matches FieldTy::Primitive(p) ==> p.ty != Type::Null) by {
        assert(storable(s.mapping, root.fields@[i]));
    }
    lemma_ready(a, root);
    lemma_map_places(a, root);
    assert(root_named(a, root, prefixed, has_children));
    lemma_root_named_kept(a, b, root, prefixed, has_children);
    lemma_root_named_kept(
        b,
        add_root(s, root, prefixed, has_children),
        root,
        prefixed,
        has_children,
    );
}

/// Mapping a model leaves its fields where they are.
proof fn lemma_map_places(s: BuildView, model: Model)
    requires
        s.mapping.contains_key(model.id),
        fields_ready(s.table, s.mapping[model.id], model.fields@),
    ensures
        same_places(s, map_model(s, model), model.id),
{
    let mapping = s.mapping[model.id];
    let t = map_model(s, model);
    lemma_lower_fields(
        s.table,
        Lowering { mapping, columns: Seq::empty(), exprs: Seq::empty() },
        model.fields@,
    );
    assert forall|i: int| mapping.stores(i) implies #[trigger] t.mapping[model.id].stores(i)
        && t.mapping[model.id].column_of(i) == mapping.column_of(i) by {
        assert(t.mapping[model.id].fields[i] is Some == mapping.fields[i] is Some);
    }
}

proof fn lemma_child_fields_named(s: BuildView, model: Model, n: int)
    requires
        app::fields_numbered(model),
        s.mapping.contains_key(model.id),
        0 <= n <= model.fields@.len(),
        child_fields(
            s,
            model.id,
            model.fields@.take(n),
            model.name.snake_case@,
        ).table.columns.len() <= usize::MAX,
        forall|i: int|
            0 <= i < model.fields@.len() ==> child_field_ready(
                s,
                model.id,
                #[trigger] model.fields@[i],
            ),
    ensures
        forall|i: int|
            0 <= i < n && (#[trigger] model.fields@[i]).ty is Primitive
                && !s.mapping[model.id].is_linked(model.fields@[i].id) ==> has_own_column(
                child_fields(s, model.id, model.fields@.take(n), model.name.snake_case@),
                model.id,
                model.fields@[i],
                Some(model.name.snake_case@),
                true,
            ),
    decreases n,
{
    let fields = model.fields@;
    let prefix = model.name.snake_case@;
    let bound: usize = model.fields.len();
    if n > 0 {
        let u = child_fields(s, model.id, fields.take(n - 1), prefix);
        let t = child_fields(s, model.id, fields.take(n), prefix);
        let last = fields[n - 1];
        assert(fields.take(n).drop_last() =~= fields.take(n - 1));
        assert(fields.take(n).last() == last);
        assert(last.id.index == n - 1);
        assert forall|k: int| 0 <= k < n - 1 implies (#[trigger] fields.take(n - 1)[k]).id.model
            == model.id && child_field_ready(s, model.id, fields.take(n - 1)[k]) by {
            assert(fields.take(n - 1)[k] == fields[k]);
        }
        lemma_child_fields_named(s, model, n - 1);
        lemma_child_fields(s, model.id, fields.take(n - 1), prefix);
        assert(child_field_ready(s, model.id, fields[n - 1]));
        lemma_child_field_ready(s, u, model.id, last);
        lemma_child_field(u, model.id, last, prefix);
        assert forall|i: int|
            0 <= i < n && (#[trigger] fields[i]).ty is Primitive && !s.mapping[model.id].is_linked(
                fields[i].id,
            ) implies has_own_column(t, model.id, fields[i], Some(prefix), true) by {
            assert(fields[i].id.index == i);
            if i < n - 1 {
                assert(has_own_column(u, model.id, fields[i], Some(prefix), true));
                let column = u.mapping[model.id].column_of(i);
                assert(t.table.column(column) == u.table.column(column));
                assert(t.mapping[model.id].fields[i] == u.mapping[model.id].fields[i]);
            }
        }
    }
}

/// Adding a child gives its own fields columns that are named after them.
proof fn lemma_add_child_named(s: BuildView, model: Model, root: ModelId)
    requires
        child_ready(s, model),
        s.mapping.contains_key(root),
        key_index_place(s.table.indices) is Some,
        add_child(s, model, root).table.columns.len() <= usize::MAX,
    ensures
        child_named(add_child(s, model, root), model),
{
    let fields = model.fields@;
    let a = child_fields(s, model.id, fields, model.name.snake_case@);
    let b = map_model(a, model);
    let t = add_child(s, model, root);
    lemma_columns_bound(s, model, root);
    assert forall|k: int| 0 <= k < fields.len() implies (#[trigger] fields[k]).id.model == model.id
        && child_field_ready(s, model.id, fields[k]) by {
        assert(fields[k] == model.fields@[k]);
    }
    lemma_child_fields(s, model.id, fields, model.name.snake_case@);
    assert(fields.take(fields.len() as int) =~= fields);
    lemma_child_fields_named(s, model, fields.len() as int);
    assert(child_named(a, model)) by {
        assert(a.mapping[model.id].links == s.mapping[model.id].links);
    }
    assert forall|k: int| 0 <= k < fields.len() implies ((#[trigger] model.fields@[k]).ty matches
        FieldTy::Primitive(p) ==> p.ty != Type::Null) by {
        assert(child_field_ready(s, model.id, model.fields@[k]));
    }
    lemma_ready(a, model);
    lemma_map_model(a, model);
    lemma_map_places(a, model);
    lemma_child_named_kept(a, b, model);
    lemma_child_indices_append(b, model.id, root, model.indices@);
    lemma_add_child(s, model, root);
    assert(appended(b.mapping[model.id], t.mapping[model.id]));
    lemma_child_named_kept(b, t, model);
}

/// Whether the columns of all the children are named after their fields.
pub open spec fn all_named(s: BuildView, children: Seq<&Model>) -> bool {
    forall|k: int| 0 <= k < children.len() ==> child_named(s, *(#[trigger] children[k]))
}

proof fn lemma_children_named(
    start: BuildView,
    s: BuildView,
    root: Model,
    children: Seq<&Model>,
    prefixed: bool,
)
    requires
        extends(start, s),
        start.mapping.contains_key(root.id),
        app::fields_numbered(root),
        all_placed(s, root.fields@),
        indexed(s.table),
        key_index_place(s.table.indices) is Some,
        children_fit(start.mapping, root, children),
        distinct_models(root, children),
        root_named(s, root, prefixed, true),
        add_children(s, children, root.id).table.columns.len() <= usize::MAX,
    ensures
        root_named(add_children(s, children, root.id), root, prefixed, true),
        all_named(add_children(s, children, root.id), children),
    decreases children.len(),
{
    if children.len() > 0 {
        let rest = children.drop_last();
        let last = *children.last();
        let u = add_children(s, rest, root.id);
        let t = add_children(s, children, root.id);
        lemma_fields_grow(u, last.id, last.fields@, last.name.snake_case@);
        lemma_columns_bound(u, last, root.id);
        lemma_rest_fits(start.mapping, root, children);
        assert forall|j: int, k: int| 0 <= j < k < rest.len() implies (#[trigger] rest[j]).id != (
        #[trigger] rest[k]).id by {
            assert(rest[j] == children[j] && rest[k] == children[k]);
        }
        assert forall|j: int| 0 <= j < rest.len() implies (#[trigger] rest[j]).id != root.id by {
            assert(rest[j] == children[j]);
        }
        lemma_children_named(start, s, root, rest, prefixed);
        lemma_add_children(start, s, root, rest);
        lemma_child_fits(start, u, root, rest, last);
        lemma_add_child_lowered(u, last, root.id);
        lemma_add_child_named(u, last, root.id);
        lemma_add_child(u, last, root.id);
        assert(children[children.len() - 1].id != root.id);
        assert(appended(u.mapping[root.id], t.mapping[root.id]));
        lemma_root_named_kept(u, t, root, prefixed, true);
        assert forall|k: int| 0 <= k < children.len() implies child_named(
            t,
            *(#[trigger] children[k]),
        ) by {
            if k < rest.len() {
                assert(rest[k] == children[k]);
                assert(children[k].id != children[children.len() - 1].id);
                assert(appended(u.mapping[children[k].id], t.mapping[children[k].id]));
                assert(child_named(u, *rest[k]));
                lemma_child_named_kept(u, t, *children[k]);
            }
        }
    }
}

/// In a built table the column of each primitive field is named after the field, with
/// the name of its model before it if `prefixed` or if it is a child's. Fields of
/// children that are linked to a parent's field share the parent's column instead.
pub proof fn law_columns_are_named_after_fields(
    s: BuildView,
    db: Capability,
    prefixed: bool,
    root: Model,
    children: Seq<&Model>,
)
    requires
        table_ready(s, root, children),
        distinct_models(root, children),
        built(s, db, prefixed, root, children).table.columns.len() <= usize::MAX,
    ensures
        root_named(built(s, db, prefixed, root, children), root, prefixed, children.len() > 0),
        all_named(built(s, db, prefixed, root, children), children),
{
    let has_children = children.len() > 0;
    let a = add_root(s, root, prefixed, has_children);
    let t = built(s, db, prefixed, root, children);
    if !has_children {
        lemma_add_root_named(s, root, prefixed, has_children);
        lemma_root_named_kept(a, t, root, prefixed, has_children);
    } else {
        let column = model_column(a.table, db, root, children).id;
        let b = add_model_column(a, db, root, children);
        let c = add_children(b, children, root.id);
        let d = BuildView { table: named(c.table), ..c };
        let e = tag_model(d, root, column);
        lemma_tags_table(e, children, column);
        lemma_children_grow(b, children, root.id);
        lemma_add_root_named(s, root, prefixed, has_children);
        lemma_add_root(s, root, prefixed, has_children);
        lemma_key_index_place(a.table.indices);
        lemma_add_model_column(a, db, root, children);
        lemma_extends_trans(s, a, b);
        lemma_all_placed(a, b, root.fields@);
        lemma_root_named_kept(a, b, root, prefixed, has_children);
        lemma_children_named(s, b, root, children, prefixed);
        lemma_built(s, db, prefixed, root, children);
        lemma_tags_append(e, children, column);
        assert(appended(e.mapping[root.id], t.mapping[root.id]));
        assert(appended(c.mapping[root.id], e.mapping[root.id]));
        lemma_root_named_kept(c, t, root, prefixed, has_children);
        assert forall|k: int| 0 <= k < children.len() implies child_named(
            t,
            *(#[trigger] children[k]),
        ) by {
            let id = children[k].id;
            assert(appended(e.mapping[id], t.mapping[id]));
            assert(appended(c.mapping[id], e.mapping[id]));
            assert(child_named(c, *children[k]));
            lemma_add_children(s, b, root, children);
            lemma_child_named_kept(c, t, *children[k]);
        }
    }
}

} // verus!

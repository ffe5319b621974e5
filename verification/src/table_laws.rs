//! What holds of every table that is built from a root model and its children.

use crate::app::{self, Field, FieldTy, Model, ModelId};
use crate::build_children::{
    add_child, child_field_ready, child_fields, child_indices, child_key_fields, child_ready,
    indexed, key_index_place, lemma_all_placed, lemma_child_fields, lemma_key_index_place,
    model_column,
};
use crate::build_collection::{
    add_children, add_model_column, built, child_fits, children_fit, lemma_add_child,
    lemma_add_children, lemma_add_model_column, lemma_add_root, lemma_child_fits,
    lemma_children_grow, lemma_columns_bound, lemma_fields_grow, lemma_index_columns_bound, named,
    table_ready, tag_model, tag_models,
};
use crate::build_mapping::{
    Lowering, encoded, field_ready, fields_ready, lemma_lower_fields, lower_fields,
    raised_field,
};
use crate::build_table::{
    BuildView, Capability, add_root, all_placed, extends, lemma_add_indices, lemma_extends_trans,
    lemma_map_model, lemma_ready, lemma_root_fields, map_model, root_fields, root_prefix,
    root_ready, storable,
};
use crate::build_tables::lemma_tags_table;
use crate::db::{ColumnId, TableView};
use crate::mapping::{KeyView, ModelView};
use crate::stmt::{Expr, ExprColumn, ExprReference, Type, Value};
use vstd::prelude::*;

verus! {

/// Whether no two of the models have the same identifier.
pub open spec fn distinct_models(root: Model, children: Seq<&Model>) -> bool {
    &&& forall|j: int| 0 <= j < children.len() ==> (#[trigger] children[j]).id != root.id
    &&& forall|j: int, k: int|
        0 <= j < k < children.len() ==> (#[trigger] children[j]).id != (#[trigger] children[k]).id
}

/// An expression of one type in another, with a conversion only if the types differ.
pub open spec fn converted(expr: Expr, from: Type, to: Type) -> Expr {
    if from == to {
        expr
    } else {
        Expr::Cast(Box::new(expr), to)
    }
}

/// Whether a primitive field and its column are expressed in terms of each other:
/// the field remembers where the expression of its column stands, that expression
/// is the field in the column's type, and the field's expression is the column in
/// the field's type. Any other field is null in terms of columns.
pub open spec fn field_lowered(s: BuildView, model: ModelId, field: Field) -> bool {
    let mapping = s.mapping[model];
    let at = field.id.index as int;
    &&& at < mapping.table_to_model.len()
    &&& field.ty !is Primitive ==> mapping.table_to_model[at] == Expr::Value(Value::Null)
    &&& field.ty matches FieldTy::Primitive(primitive) ==> {
        let stored = mapping.fields[at]->0;
        let column = s.table.columns[stored.column.index as int];
        &&& mapping.stores(at)
        &&& s.table.has_column(stored.column)
        &&& stored.lowering < mapping.columns.len()
        &&& stored.lowering < mapping.model_to_table.len()
        &&& mapping.columns[stored.lowering as int] == stored.column
        &&& mapping.model_to_table[stored.lowering as int] == converted(
            Expr::Reference(ExprReference::Field(field.id)),
            primitive.ty,
            column.ty,
        )
        &&& mapping.table_to_model[at] == converted(
            Expr::Reference(
                ExprReference::Column(
                    ExprColumn { nesting: 0, table: 0, column: stored.column.index },
                ),
            ),
            column.ty,
            primitive.ty,
        )
    }
}

/// Whether all primitive fields of the model are expressed in terms of columns and back,
/// with one expression for each field of the model.
pub open spec fn model_lowered(s: BuildView, model: Model) -> bool {
    &&& s.mapping[model.id].table_to_model.len() == model.fields@.len()
    &&& s.mapping[model.id].model_pk_to_table == KeyView::Record(Seq::empty())
    &&& forall|i: int|
        0 <= i < model.fields@.len() ==> field_lowered(s, model.id, #[trigger] model.fields@[i])
}

/// Whether a model's mapping has only been added to.
pub open spec fn appended(s: ModelView, t: ModelView) -> bool {
    &&& t.fields == s.fields
    &&& t.links == s.links
    &&& t.table_to_model == s.table_to_model
    &&& t.model_pk_to_table == s.model_pk_to_table
    &&& s.columns.is_prefix_of(t.columns)
    &&& s.model_to_table.is_prefix_of(t.model_to_table)
}

proof fn lemma_appended_trans(s: ModelView, t: ModelView, u: ModelView)
    requires
        appended(s, t),
        appended(t, u),
    ensures
        appended(s, u),
{
}

proof fn lemma_lowered_kept(s: BuildView, t: BuildView, model: Model)
    requires
        model_lowered(s, model),
        appended(s.mapping[model.id], t.mapping[model.id]),
        s.table.columns.is_prefix_of(t.table.columns),
    ensures
        model_lowered(t, model),
{
    assert forall|i: int| 0 <= i < model.fields@.len() implies field_lowered(
        t,
        model.id,
        #[trigger] model.fields@[i],
    ) by {
        let field = model.fields@[i];
        assert(field_lowered(s, model.id, field));
        if field.ty is Primitive {
            let stored = s.mapping[model.id].fields[field.id.index as int]->0;
            assert(t.table.column(stored.column) == s.table.column(stored.column));
        }
    }
}

/// What holds of each field once it is lowered.
proof fn lemma_lower_each(table: TableView, mapping: ModelView, model: Model, n: int)
    requires
        app::fields_numbered(model),
        fields_ready(table, mapping, model.fields@),
        0 <= n <= model.fields@.len(),
    ensures
        ({
            let start = Lowering { mapping, columns: Seq::empty(), exprs: Seq::empty() };
            let t = lower_fields(table, start, model.fields@.take(n));
            &&& t.columns.len() == t.exprs.len()
            &&& t.exprs.len() <= n
            &&& forall|i: int|
                0 <= i < n ==> ((#[trigger] model.fields@[i]).ty matches FieldTy::Primitive(
                    primitive,
                ) ==> {
                    let stored = t.mapping.fields[i]->0;
                    &&& t.mapping.stores(i)
                    &&& stored.column == mapping.column_of(i)
                    &&& stored.lowering < t.columns.len()
                    &&& t.columns[stored.lowering as int] == stored.column
                    &&& t.exprs[stored.lowering as int] == encoded(
                        table,
                        stored.column,
                        primitive.ty,
                        Expr::Reference(ExprReference::Field(model.fields@[i].id)),
                    )
                })
        }),
    decreases n,
{
    let start = Lowering { mapping, columns: Seq::empty(), exprs: Seq::empty() };
    let fields = model.fields@;
    let bound: usize = model.fields.len();
    if n > 0 {
        lemma_lower_each(table, mapping, model, n - 1);
        assert(fields.take(n).drop_last() =~= fields.take(n - 1));
        let u = lower_fields(table, start, fields.take(n - 1));
        let t = lower_fields(table, start, fields.take(n));
        let last = fields[n - 1];
        assert(last.id.index == n - 1);
        assert(fields.take(n).last() == last);
        assert(field_ready(table, mapping, fields[n - 1]));
        lemma_take_ready(table, mapping, fields, n - 1);
        lemma_lower_fields(table, start, fields.take(n - 1));
        assert forall|i: int| 0 <= i < n implies ((#[trigger] fields[i]).ty matches
            FieldTy::Primitive(primitive) ==> {
            let stored = t.mapping.fields[i]->0;
            &&& t.mapping.stores(i)
            &&& stored.column == mapping.column_of(i)
            &&& stored.lowering < t.columns.len()
            &&& t.columns[stored.lowering as int] == stored.column
            &&& t.exprs[stored.lowering as int] == encoded(
                table,
                stored.column,
                primitive.ty,
                Expr::Reference(ExprReference::Field(fields[i].id)),
            )
        }) by {
            if i < n - 1 && fields[i].ty is Primitive {
                assert(u.mapping.stores(i));
            }
        }
    } else {
        assert(fields.take(0) =~= Seq::<Field>::empty());
    }
}

proof fn lemma_take_ready(table: TableView, mapping: ModelView, fields: Seq<Field>, n: int)
    requires
        fields_ready(table, mapping, fields),
        0 <= n <= fields.len(),
    ensures
        fields_ready(table, mapping, fields.take(n)),
{
    assert forall|i: int| 0 <= i < n implies field_ready(table, mapping, #[trigger] fields.take(n)[i]) by {
        assert(fields.take(n)[i] == fields[i]);
    }
}

proof fn lemma_map_lowered(s: BuildView, model: Model)
    requires
        app::fields_numbered(model),
        fields_ready(s.table, s.mapping[model.id], model.fields@),
    ensures
        model_lowered(map_model(s, model), model),
{
    let mapping = s.mapping[model.id];
    let t = map_model(s, model);
    let n = model.fields@.len() as int;
    lemma_lower_each(s.table, mapping, model, n);
    assert(model.fields@.take(n) =~= model.fields@);
    let bound: usize = model.fields.len();
    assert forall|i: int| 0 <= i < model.fields@.len() implies field_lowered(
        t,
        model.id,
        #[trigger] model.fields@[i],
    ) by {
        let field = model.fields@[i];
        assert(field.id.index == i);
        assert(field_ready(s.table, mapping, field));
        assert(t.mapping[model.id].table_to_model[i] == raised_field(s.table, mapping, field));
    }
}

pub proof fn lemma_key_fields_append(
    s: BuildView,
    model: ModelId,
    root: ModelId,
    fields: Seq<app::IndexField>,
)
    ensures
        forall|m: ModelId| #[trigger] appended(
            s.mapping[m],
            child_key_fields(s, model, root, fields).mapping[m],
        ),
    decreases fields.len(),
{
    if fields.len() > 0 {
        let u = child_key_fields(s, model, root, fields.drop_last());
        let t = child_key_fields(s, model, root, fields);
        lemma_key_fields_append(s, model, root, fields.drop_last());
        assert forall|m: ModelId| #[trigger] appended(s.mapping[m], t.mapping[m]) by {
            assert(appended(s.mapping[m], u.mapping[m]));
            assert(appended(u.mapping[m], t.mapping[m]));
        }
    }
}

pub proof fn lemma_child_indices_append(
    s: BuildView,
    model: ModelId,
    root: ModelId,
    indices: Seq<app::Index>,
)
    ensures
        forall|m: ModelId| #[trigger] appended(
            s.mapping[m],
            child_indices(s, model, root, indices).mapping[m],
        ),
        child_indices(s, model, root, indices).table.columns == s.table.columns,
    decreases indices.len(),
{
    if indices.len() > 0 {
        let u = child_indices(s, model, root, indices.drop_last());
        let t = child_indices(s, model, root, indices);
        lemma_child_indices_append(s, model, root, indices.drop_last());
        lemma_index_columns_bound(s, model, root, indices);
        if indices.last().primary_key {
            lemma_key_fields_append(u, model, root, indices.last().fields@);
        }
        assert forall|m: ModelId| #[trigger] appended(s.mapping[m], t.mapping[m]) by {
            assert(appended(s.mapping[m], u.mapping[m]));
            assert(appended(u.mapping[m], t.mapping[m]));
        }
    }
}

/// Adding a child lowers it and adds at most to the mappings of the others.
pub proof fn lemma_add_child_lowered(s: BuildView, model: Model, root: ModelId)
    requires
        child_ready(s, model),
        s.mapping.contains_key(root),
        key_index_place(s.table.indices) is Some,
        add_child(s, model, root).table.columns.len() <= usize::MAX,
    ensures
        model_lowered(add_child(s, model, root), model),
        forall|m: ModelId|
            m != model.id ==> #[trigger] appended(
                s.mapping[m],
                add_child(s, model, root).mapping[m],
            ),
{
    let fields = model.fields@;
    let a = child_fields(s, model.id, fields, model.name.snake_case@);
    let b = map_model(a, model);
    let t = add_child(s, model, root);
    lemma_columns_bound(s, model, root);
    assert forall|k: int| 0 <= k < fields.len() implies (#[trigger] fields[k]).id.model == model.id
        && child_field_ready(s, model.id, fields[k]) by {
        assert(fields[k] == model.fields@[k]);
    }
    lemma_child_fields(s, model.id, fields, model.name.snake_case@);
    assert forall|k: int| 0 <= k < fields.len() implies ((#[trigger] model.fields@[k]).ty matches
        FieldTy::Primitive(p) ==> p.ty != Type::Null) by {
        assert(child_field_ready(s, model.id, model.fields@[k]));
    }
    lemma_ready(a, model);
    lemma_map_lowered(a, model);
    lemma_map_model(a, model);
    lemma_child_indices_append(b, model.id, root, model.indices@);
    assert(appended(b.mapping[model.id], t.mapping[model.id]));
    lemma_lowered_kept(b, t, model);
    assert forall|m: ModelId| m != model.id implies #[trigger] appended(
        s.mapping[m],
        t.mapping[m],
    ) by {
        assert(appended(b.mapping[m], t.mapping[m]));
    }
}

/// Adding the root lowers it.
proof fn lemma_add_root_lowered(s: BuildView, model: Model, prefixed: bool, has_children: bool)
    requires
        root_ready(s.mapping, model),
        add_root(s, model, prefixed, has_children).table.columns.len() <= usize::MAX,
    ensures
        model_lowered(add_root(s, model, prefixed, has_children), model),
{
    let prefix = root_prefix(model, prefixed);
    let a = root_fields(s, model.fields@, prefix, has_children);
    let b = map_model(a, model);
    lemma_add_indices(b, model.id, model.indices@);
    lemma_root_fields(s, model.fields@, prefix, has_children, model.id);
    assert forall|i: int| 0 <= i < model.fields@.len() implies ((
    #[trigger] model.fields@[i]).ty matches FieldTy::Primitive(p) ==> p.ty != Type::Null) by {
        assert(storable(s.mapping, model.fields@[i]));
    }
    lemma_ready(a, model);
    lemma_map_lowered(a, model);
    lemma_lowered_kept(b, add_root(s, model, prefixed, has_children), model);
}

/// Whether all the models are lowered.
pub open spec fn all_lowered(s: BuildView, models: Seq<&Model>) -> bool {
    forall|k: int| 0 <= k < models.len() ==> model_lowered(s, *(#[trigger] models[k]))
}

pub proof fn lemma_add_children_lowered(
    start: BuildView,
    s: BuildView,
    root: Model,
    children: Seq<&Model>,
)
    requires
        extends(start, s),
        start.mapping.contains_key(root.id),
        app::fields_numbered(root),
        all_placed(s, root.fields@),
        indexed(s.table),
        key_index_place(s.table.indices) is Some,
        children_fit(start.mapping, root, children),
        distinct_models(root, children),
        model_lowered(s, root),
        add_children(s, children, root.id).table.columns.len() <= usize::MAX,
    ensures
        model_lowered(add_children(s, children, root.id), root),
        all_lowered(add_children(s, children, root.id), children),
        forall|m: ModelId|
            (forall|k: int| 0 <= k < children.len() ==> (#[trigger] children[k]).id != m)
                ==> #[trigger] appended(
                s.mapping[m],
                add_children(s, children, root.id).mapping[m],
            ),
    decreases children.len(),
{
    if children.len() > 0 {
        let rest = children.drop_last();
        let last = *children.last();
        let u = add_children(s, rest, root.id);
        let t = add_children(s, children, root.id);
        lemma_fields_grow(u, last.id, last.fields@, last.name.snake_case@);
        lemma_columns_bound(u, last, root.id);
        lemma_rest_fits(start.mapping, root, children);
        assert forall|j: int, k: int| 0 <= j < k < rest.len() implies (#[trigger] rest[j]).id != (
        #[trigger] rest[k]).id by {
            assert(rest[j] == children[j] && rest[k] == children[k]);
        }
        assert forall|j: int| 0 <= j < rest.len() implies (#[trigger] rest[j]).id != root.id by {
            assert(rest[j] == children[j]);
        }
        lemma_add_children_lowered(start, s, root, rest);
        lemma_add_children(start, s, root, rest);
        lemma_child_fits(start, u, root, rest, last);
        lemma_add_child_lowered(u, last, root.id);
        lemma_add_child(u, last, root.id);
        assert(children[children.len() - 1].id != root.id);
        assert(appended(u.mapping[root.id], t.mapping[root.id]));
        lemma_lowered_kept(u, t, root);
        assert forall|k: int| 0 <= k < children.len() implies model_lowered(
            t,
            *(#[trigger] children[k]),
        ) by {
            if k < rest.len() {
                assert(rest[k] == children[k]);
                assert(children[k].id != children[children.len() - 1].id);
                assert(appended(u.mapping[children[k].id], t.mapping[children[k].id]));
                lemma_lowered_kept(u, t, *children[k]);
            }
        }
        assert forall|m: ModelId|
            (forall|k: int| 0 <= k < children.len() ==> (#[trigger] children[k]).id != m) implies #[trigger] appended(
            s.mapping[m],
            t.mapping[m],
        ) by {
            assert forall|k: int| 0 <= k < rest.len() implies (#[trigger] rest[k]).id != m by {
                assert(rest[k] == children[k]);
            }
            assert(appended(s.mapping[m], u.mapping[m]));
            assert(children[children.len() - 1].id != m);
            assert(appended(u.mapping[m], t.mapping[m]));
        }
    }
}

pub proof fn lemma_rest_fits(mapping: Map<ModelId, ModelView>, root: Model, children: Seq<&Model>)
    requires
        children.len() > 0,
        children_fit(mapping, root, children),
    ensures
        children_fit(mapping, root, children.drop_last()),
        child_fits(mapping, root, children.drop_last(), *children.last()),
{
    let rest = children.drop_last();
    assert forall|j: int| 0 <= j < rest.len() implies child_fits(
        mapping,
        root,
        rest.take(j),
        *(#[trigger] rest[j]),
    ) by {
        assert(rest[j] == children[j]);
        assert(rest.take(j) =~= children.take(j));
    }
    assert(children.take(children.len() - 1) =~= rest);
    assert(child_fits(mapping, root, rest, *children[children.len() - 1]));
}

pub proof fn lemma_tags_append(s: BuildView, models: Seq<&Model>, column: ColumnId)
    ensures
        forall|m: ModelId| #[trigger] appended(
            s.mapping[m],
            tag_models(s, models, column).mapping[m],
        ),
    decreases models.len(),
{
    if models.len() > 0 {
        let u = tag_models(s, models.drop_last(), column);
        let t = tag_models(s, models, column);
        lemma_tags_append(s, models.drop_last(), column);
        assert forall|m: ModelId| #[trigger] appended(s.mapping[m], t.mapping[m]) by {
            assert(appended(s.mapping[m], u.mapping[m]));
            assert(appended(u.mapping[m], t.mapping[m]));
        }
    }
}

/// In a built table every primitive field, of the root as of the children, has a
/// column of the table, and the field and the column are expressed in terms of
/// each other.
pub proof fn law_fields_and_columns_agree(
    s: BuildView,
    db: Capability,
    prefixed: bool,
    root: Model,
    children: Seq<&Model>,
)
    requires
        table_ready(s, root, children),
        distinct_models(root, children),
        built(s, db, prefixed, root, children).table.columns.len() <= usize::MAX,
    ensures
        model_lowered(built(s, db, prefixed, root, children), root),
        all_lowered(built(s, db, prefixed, root, children), children),
{
    let has_children = children.len() > 0;
    let a = add_root(s, root, prefixed, has_children);
    let t = built(s, db, prefixed, root, children);
    if !has_children {
        lemma_add_root_lowered(s, root, prefixed, has_children);
        lemma_lowered_kept(a, t, root);
    } else {
        let column = model_column(a.table, db, root, children).id;
        let b = add_model_column(a, db, root, children);
        let c = add_children(b, children, root.id);
        let d = BuildView { table: named(c.table), ..c };
        let e = tag_model(d, root, column);
        lemma_tags_table(e, children, column);
        lemma_children_grow(b, children, root.id);
        lemma_add_root_lowered(s, root, prefixed, has_children);
        lemma_add_root(s, root, prefixed, has_children);
        lemma_key_index_place(a.table.indices);
        lemma_add_model_column(a, db, root, children);
        lemma_extends_trans(s, a, b);
        lemma_all_placed(a, b, root.fields@);
        lemma_lowered_kept(a, b, root);
        lemma_add_children_lowered(s, b, root, children);
        lemma_tags_append(e, children, column);
        assert(appended(e.mapping[root.id], t.mapping[root.id]));
        lemma_appended_trans(c.mapping[root.id], e.mapping[root.id], t.mapping[root.id]);
        lemma_lowered_kept(c, t, root);
        assert forall|k: int| 0 <= k < children.len() implies model_lowered(
            t,
            *(#[trigger] children[k]),
        ) by {
            let id = children[k].id;
            assert(appended(e.mapping[id], t.mapping[id]));
            assert(appended(c.mapping[id], e.mapping[id]));
            lemma_lowered_kept(c, t, *children[k]);
        }
    }
}

} // verus!

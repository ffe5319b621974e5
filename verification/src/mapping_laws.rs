//! Which columns a built table and the mappings of its models consist of.

use crate::app::{self, Field, FieldTy, Model, ModelId};
use crate::build_children::{
    add_child, child_field, child_fields, child_index, child_indices, child_key_field,
    child_key_fields, larger, longest_name, model_column, name_size,
};
use crate::build_collection::{
    add_children, add_model_column, built, child_fits, named, table_ready, tag_model, tag_models,
};
use crate::build_mapping::{
    Lowering, field_ready, fields_ready, key_lowering, lemma_lower_fields, lower_fields,
};
use crate::build_table::{
    BuildView, Capability, add_root, lemma_add_indices, map_model, root_fields, root_prefix,
};
use crate::db::{ColumnId, IndexColumn, TableView};
use crate::index_laws::{
    all_own_key_columns, has_link, lemma_all_own_same, lemma_child_fields_indices,
    lemma_has_link, lemma_own_columns_same, lemma_tags_fields, own_key_column, own_key_columns,
    same_fields, stored_at,
};
use crate::mapping::{KeyView, ModelView};
use crate::stmt::{Expr, ExprReference, Value};
use crate::table_laws::{converted, distinct_models};
use vstd::prelude::*;
use vstd::utf8::encode_utf8;

verus! {

/// Keeps a field if it is primitive.
pub open spec fn primitive() -> spec_fn(Field) -> Option<Field> {
    |f: Field|
        if f.ty is Primitive {
            Some(f)
        } else {
            None
        }
}

/// Keeps a field if it is primitive and not linked to a parent's.
pub open spec fn own_primitive(links: Seq<((usize, usize), (usize, usize))>) -> spec_fn(
    Field,
) -> Option<Field> {
    |f: Field|
        if f.ty is Primitive && !has_link(links, f.id) {
            Some(f)
        } else {
            None
        }
}

/// How many fields of the children are primitive and not linked to a parent's.
pub open spec fn own_primitives(
    mapping: Map<ModelId, ModelView>,
    children: Seq<&Model>,
) -> nat
    decreases children.len(),
{
    if children.len() == 0 {
        0
    } else {
        own_primitives(mapping, children.drop_last()) + children.last().fields@.filter_map(
            own_primitive(mapping[children.last().id].links),
        ).len()
    }
}

/// As many null expressions as asked for.
pub open spec fn nulls(n: nat) -> Seq<Expr> {
    Seq::new(n, |i: int| Expr::Value(Value::Null))
}

/// The identifiers of the columns of an index.
pub open spec fn identifiers(columns: Seq<IndexColumn>) -> Seq<ColumnId> {
    columns.map_values(|c: IndexColumn| c.column)
}

proof fn lemma_root_count(
    s: BuildView,
    fields: Seq<Field>,
    prefix: Option<Seq<char>>,
    has_children: bool,
)
    ensures
        ({
            let t = root_fields(s, fields, prefix, has_children);
            &&& t.table.columns.len() == s.table.columns.len() + fields.filter_map(
                primitive(),
            ).len()
            &&& forall|m: ModelId| (#[trigger] t.mapping[m]).links == s.mapping[m].links
        }),
    decreases fields.len(),
{
    if fields.len() > 0 {
        lemma_root_count(s, fields.drop_last(), prefix, has_children);
        let u = root_fields(s, fields.drop_last(), prefix, has_children);
        let t = root_fields(s, fields, prefix, has_children);
        assert forall|m: ModelId| (#[trigger] t.mapping[m]).links == s.mapping[m].links by {
            assert(u.mapping[m].links == s.mapping[m].links);
        }
    }
}

proof fn lemma_child_count(s: BuildView, model: ModelId, fields: Seq<Field>, prefix: Seq<char>)
    ensures
        ({
            let t = child_fields(s, model, fields, prefix);
            &&& t.table.columns.len() == s.table.columns.len() + fields.filter_map(
                own_primitive(s.mapping[model].links),
            ).len()
            &&& forall|m: ModelId| (#[trigger] t.mapping[m]).links == s.mapping[m].links
        }),
    decreases fields.len(),
{
    if fields.len() > 0 {
        let rest = fields.drop_last();
        lemma_child_count(s, model, rest, prefix);
        let u = child_fields(s, model, rest, prefix);
        let t = child_fields(s, model, fields, prefix);
        assert(t == child_field(u, model, fields.last(), prefix));
        assert(u.mapping[model].links == s.mapping[model].links);
        lemma_has_link(u.mapping[model].links, fields.last().id);
        assert forall|m: ModelId| (#[trigger] t.mapping[m]).links == s.mapping[m].links by {
            assert(u.mapping[m].links == s.mapping[m].links);
        }
    }
}

/// A model that is mapped has one column and one expression for each primitive field.
proof fn lemma_lower_count(table: TableView, s: Lowering, fields: Seq<Field>)
    ensures
        ({
            let t = lower_fields(table, s, fields);
            let n = fields.filter_map(primitive()).len();
            &&& t.columns.len() == s.columns.len() + n
            &&& t.exprs.len() == s.exprs.len() + n
            &&& t.mapping.links == s.mapping.links
        }),
    decreases fields.len(),
{
    if fields.len() > 0 {
        lemma_lower_count(table, s, fields.drop_last());
    }
}

proof fn lemma_map_count(s: BuildView, model: Model)
    ensures
        ({
            let t = map_model(s, model).mapping[model.id];
            let n = model.fields@.filter_map(primitive()).len();
            &&& t.columns.len() == n
            &&& t.model_to_table.len() == n
            &&& t.links == s.mapping[model.id].links
        }),
{
    let start = Lowering {
        mapping: s.mapping[model.id],
        columns: Seq::empty(),
        exprs: Seq::empty(),
    };
    lemma_lower_count(s.table, start, model.fields@);
}

/// Whether `t` has the root's columns and expressions of `s`, and then the given columns,
/// each with null for its expression, and of the other models what `s` has.
pub open spec fn root_extended(
    s: BuildView,
    t: BuildView,
    root: ModelId,
    more: Seq<ColumnId>,
) -> bool {
    &&& t.mapping[root].columns == s.mapping[root].columns + more
    &&& t.mapping[root].model_to_table == s.mapping[root].model_to_table + nulls(more.len())
    &&& t.mapping[root].fields == s.mapping[root].fields
    &&& t.mapping[root].links == s.mapping[root].links
    &&& forall|m: ModelId| m != root ==> #[trigger] t.mapping[m] == s.mapping[m]
    &&& t.table.columns == s.table.columns
}

proof fn lemma_extended_trans(
    s: BuildView,
    t: BuildView,
    u: BuildView,
    root: ModelId,
    a: Seq<ColumnId>,
    b: Seq<ColumnId>,
)
    requires
        root_extended(s, t, root, a),
        root_extended(t, u, root, b),
    ensures
        root_extended(s, u, root, a + b),
{
    assert(u.mapping[root].columns =~= s.mapping[root].columns + (a + b));
    assert(u.mapping[root].model_to_table =~= s.mapping[root].model_to_table + nulls(
        (a + b).len(),
    ));
    assert forall|m: ModelId| m != root implies #[trigger] u.mapping[m] == s.mapping[m] by {
        assert(t.mapping[m] == s.mapping[m]);
    }
}

proof fn lemma_extended_refl(s: BuildView, t: BuildView, root: ModelId)
    requires
        t.mapping == s.mapping,
        t.table.columns == s.table.columns,
    ensures
        root_extended(s, t, root, Seq::empty()),
{
    let none = Seq::<ColumnId>::empty();
    assert(t.mapping[root].columns =~= s.mapping[root].columns + none);
    assert(t.mapping[root].model_to_table =~= s.mapping[root].model_to_table + nulls(0));
}

proof fn lemma_key_fields_extend(
    s: BuildView,
    model: ModelId,
    root: ModelId,
    fields: Seq<app::IndexField>,
)
    requires
        model != root,
    ensures
        root_extended(
            s,
            child_key_fields(s, model, root, fields),
            root,
            identifiers(fields.filter_map(own_key_column(s.mapping[model]))),
        ),
    decreases fields.len(),
{
    if fields.len() == 0 {
        lemma_extended_refl(s, s, root);
        assert(identifiers(fields.filter_map(own_key_column(s.mapping[model])))
            =~= Seq::empty());
    } else {
        let rest = fields.drop_last();
        lemma_key_fields_extend(s, model, root, rest);
        let u = child_key_fields(s, model, root, rest);
        let t = child_key_fields(s, model, root, fields);
        let field = fields.last();
        assert(t == child_key_field(u, model, root, field));
        assert(u.mapping[model] == s.mapping[model]);
        lemma_has_link(u.mapping[model].links, field.field);
        let more = rest.filter_map(own_key_column(s.mapping[model]));
        let all = fields.filter_map(own_key_column(s.mapping[model]));
        if !u.mapping[model].is_linked(field.field) {
            let column = stored_at(u.mapping[model], field.field);
            assert(nulls(1) =~= seq![Expr::Value(Value::Null)]);
            assert(t.mapping[root].columns =~= u.mapping[root].columns + seq![column]);
            assert(t.mapping[root].model_to_table =~= u.mapping[root].model_to_table + nulls(1));
            assert(root_extended(u, t, root, seq![column]));
            lemma_extended_trans(s, u, t, root, identifiers(more), seq![column]);
            assert(identifiers(all) =~= identifiers(more) + seq![column]);
        }
    }
}

proof fn lemma_child_indices_extend(
    s: BuildView,
    model: ModelId,
    root: ModelId,
    indices: Seq<app::Index>,
)
    requires
        model != root,
    ensures
        root_extended(
            s,
            child_indices(s, model, root, indices),
            root,
            identifiers(own_key_columns(s.mapping[model], indices)),
        ),
    decreases indices.len(),
{
    if indices.len() == 0 {
        lemma_extended_refl(s, s, root);
        assert(identifiers(own_key_columns(s.mapping[model], indices)) =~= Seq::empty());
    } else {
        let rest = indices.drop_last();
        lemma_child_indices_extend(s, model, root, rest);
        let u = child_indices(s, model, root, rest);
        let t = child_indices(s, model, root, indices);
        let index = indices.last();
        assert(t == child_index(u, model, root, index));
        assert(u.mapping[model] == s.mapping[model]);
        let more = own_key_columns(s.mapping[model], rest);
        let added = if index.primary_key {
            index.fields@.filter_map(own_key_column(s.mapping[model]))
        } else {
            Seq::empty()
        };
        if index.primary_key {
            lemma_key_fields_extend(u, model, root, index.fields@);
        } else {
            lemma_extended_refl(u, t, root);
            assert(identifiers(added) =~= Seq::empty());
        }
        lemma_extended_trans(s, u, t, root, identifiers(more), identifiers(added));
        assert(identifiers(own_key_columns(s.mapping[model], indices)) =~= identifiers(more)
            + identifiers(added));
    }
}

/// Whether a model has one column and one expression for each primitive field.
pub open spec fn counted(mapping: ModelView, model: Model) -> bool {
    let n = model.fields@.filter_map(primitive()).len();
    mapping.columns.len() == n && mapping.model_to_table.len() == n
}

proof fn lemma_children_extend(s: BuildView, root: ModelId, children: Seq<&Model>)
    requires
        forall|k: int|
            0 <= k < children.len() ==> (#[trigger] children[k]).id != root
                && app::fields_numbered(*children[k]),
        forall|j: int, k: int|
            0 <= j < k < children.len() ==> (#[trigger] children[j]).id != (
            #[trigger] children[k]).id,
    ensures
        ({
            let t = add_children(s, children, root);
            let more = identifiers(all_own_key_columns(t.mapping, children));
            &&& t.mapping[root].columns == s.mapping[root].columns + more
            &&& t.mapping[root].model_to_table == s.mapping[root].model_to_table + nulls(
                more.len(),
            )
            &&& t.table.columns.len() == s.table.columns.len() + own_primitives(
                s.mapping,
                children,
            )
            &&& forall|m: ModelId| (#[trigger] t.mapping[m]).links == s.mapping[m].links
            &&& forall|m: ModelId|
                m != root && (forall|k: int|
                    0 <= k < children.len() ==> (#[trigger] children[k]).id != m)
                    ==> #[trigger] t.mapping[m] == s.mapping[m]
            &&& forall|k: int|
                0 <= k < children.len() ==> counted(
                    t.mapping[(#[trigger] children[k]).id],
                    *children[k],
                )
        }),
    decreases children.len(),
{
    if children.len() == 0 {
        assert(identifiers(all_own_key_columns(s.mapping, children)) =~= Seq::empty());
        assert(s.mapping[root].columns + Seq::empty() =~= s.mapping[root].columns);
        assert(s.mapping[root].model_to_table + nulls(0) =~= s.mapping[root].model_to_table);
    } else {
        let rest = children.drop_last();
        assert forall|k: int| 0 <= k < rest.len() implies (#[trigger] rest[k]).id != root
            && app::fields_numbered(*rest[k]) by {
            assert(rest[k] == children[k]);
        }
        assert forall|j: int, k: int| 0 <= j < k < rest.len() implies (#[trigger] rest[j]).id != (
        #[trigger] rest[k]).id by {
            assert(rest[j] == children[j] && rest[k] == children[k]);
        }
        lemma_children_extend(s, root, rest);
        let last = *children.last();
        assert(children[children.len() - 1].id != root);
        assert(app::fields_numbered(*children[children.len() - 1]));
        let u = add_children(s, rest, root);
        let a = child_fields(u, last.id, last.fields@, last.name.snake_case@);
        let b = map_model(a, last);
        let t = add_children(s, children, root);
        assert(t == add_child(u, last, root));
        lemma_child_count(u, last.id, last.fields@, last.name.snake_case@);
        lemma_child_fields_indices(u, last.id, last.fields@, last.name.snake_case@);
        lemma_map_count(a, last);
        lemma_child_indices_extend(b, last.id, root, last.indices@);
        assert(a.mapping[root] == u.mapping[root]);
        assert(b.mapping[root] == a.mapping[root]);
        assert(t.mapping[last.id] == b.mapping[last.id]);
        assert(a.mapping[last.id].links == u.mapping[last.id].links);
        assert(u.mapping[last.id].links == s.mapping[last.id].links);
        lemma_own_columns_same(b.mapping[last.id], t.mapping[last.id], last.indices@);
        assert forall|m: ModelId| m != last.id && m != root implies #[trigger] t.mapping[m]
            == u.mapping[m] by {
            assert(a.mapping[m] == u.mapping[m]);
            assert(b.mapping[m] == a.mapping[m]);
        }
        assert forall|k: int| 0 <= k < rest.len() implies {
            &&& u.mapping[(#[trigger] rest[k]).id].fields == t.mapping[rest[k].id].fields
            &&& u.mapping[rest[k].id].links == t.mapping[rest[k].id].links
        } by {
            assert(rest[k] == children[k]);
            assert(children[k].id != children[children.len() - 1].id);
            assert(t.mapping[rest[k].id] == u.mapping[rest[k].id]);
        }
        lemma_all_own_same(u.mapping, t.mapping, rest);
        let before = all_own_key_columns(t.mapping, rest);
        let added = own_key_columns(t.mapping[last.id], last.indices@);
        let all = all_own_key_columns(t.mapping, children);
        assert(identifiers(all) =~= identifiers(before) + identifiers(added));
        assert(t.mapping[root].columns =~= s.mapping[root].columns + identifiers(all));
        assert(t.mapping[root].model_to_table =~= s.mapping[root].model_to_table + nulls(
            identifiers(all).len(),
        ));
        assert forall|m: ModelId| (#[trigger] t.mapping[m]).links == s.mapping[m].links by {
            assert(u.mapping[m].links == s.mapping[m].links);
            assert(a.mapping[m].links == u.mapping[m].links);
            if m != last.id && m != root {
                assert(t.mapping[m] == u.mapping[m]);
            }
        }
        assert forall|m: ModelId|
            m != root && (forall|k: int|
                0 <= k < children.len() ==> (#[trigger] children[k]).id != m) implies #[trigger] t.mapping[m]
            == s.mapping[m] by {
            assert(children[children.len() - 1].id != m);
            assert forall|k: int| 0 <= k < rest.len() implies (#[trigger] rest[k]).id != m by {
                assert(rest[k] == children[k]);
            }
            assert(u.mapping[m] == s.mapping[m]);
            assert(t.mapping[m] == u.mapping[m]);
        }
        assert forall|k: int| 0 <= k < children.len() implies counted(
            t.mapping[(#[trigger] children[k]).id],
            *children[k],
        ) by {
            if k < rest.len() {
                assert(rest[k] == children[k]);
                assert(children[k].id != children[children.len() - 1].id);
                assert(counted(u.mapping[rest[k].id], *rest[k]));
                assert(t.mapping[rest[k].id] == u.mapping[rest[k].id]);
            }
        }
    }
}

/// Whether the mapping is the other one with one more column, and the model's name for its
/// expression.
pub open spec fn is_tagged(
    before: ModelView,
    after: ModelView,
    model: Model,
    column: ColumnId,
) -> bool {
    &&& after.columns == before.columns.push(column)
    &&& after.model_to_table.len() == before.model_to_table.len() + 1
    &&& before.model_to_table.is_prefix_of(after.model_to_table)
    &&& after.model_to_table.last() == Expr::Value(Value::String(model.name.camel_case))
    &&& after.model_column == Some(column)
}

proof fn lemma_tags_each(s: BuildView, models: Seq<&Model>, column: ColumnId)
    requires
        forall|j: int, k: int|
            0 <= j < k < models.len() ==> (#[trigger] models[j]).id != (#[trigger] models[k]).id,
    ensures
        ({
            let t = tag_models(s, models, column);
            &&& forall|k: int|
                0 <= k < models.len() ==> is_tagged(
                    s.mapping[(#[trigger] models[k]).id],
                    t.mapping[models[k].id],
                    *models[k],
                    column,
                )
            &&& forall|m: ModelId|
                (forall|k: int| 0 <= k < models.len() ==> (#[trigger] models[k]).id != m)
                    ==> #[trigger] t.mapping[m] == s.mapping[m]
        }),
    decreases models.len(),
{
    if models.len() > 0 {
        let rest = models.drop_last();
        assert forall|j: int, k: int| 0 <= j < k < rest.len() implies (#[trigger] rest[j]).id != (
        #[trigger] rest[k]).id by {
            assert(rest[j] == models[j] && rest[k] == models[k]);
        }
        lemma_tags_each(s, rest, column);
        let u = tag_models(s, rest, column);
        let t = tag_models(s, models, column);
        let last = *models.last();
        assert(t == tag_model(u, last, column));
        assert(u.mapping[last.id] == s.mapping[last.id]) by {
            assert forall|k: int| 0 <= k < rest.len() implies (#[trigger] rest[k]).id != last.id by {
                assert(rest[k] == models[k]);
                assert(models[k].id != models[models.len() - 1].id);
            }
        }
        assert forall|k: int| 0 <= k < models.len() implies is_tagged(
            s.mapping[(#[trigger] models[k]).id],
            t.mapping[models[k].id],
            *models[k],
            column,
        ) by {
            if k < rest.len() {
                assert(rest[k] == models[k]);
                assert(models[k].id != models[models.len() - 1].id);
                assert(is_tagged(s.mapping[rest[k].id], u.mapping[rest[k].id], *rest[k], column));
            }
        }
        assert forall|m: ModelId|
            (forall|k: int| 0 <= k < models.len() ==> (#[trigger] models[k]).id != m) implies #[trigger] t.mapping[m]
            == s.mapping[m] by {
            assert(models[models.len() - 1].id != m);
            assert forall|k: int| 0 <= k < rest.len() implies (#[trigger] rest[k]).id != m by {
                assert(rest[k] == models[k]);
            }
            assert(u.mapping[m] == s.mapping[m]);
        }
    }
}

/// A built table has one column for each primitive field of the root, and nothing else if
/// there are no children. With children it also has one for the model's name and one for
/// each primitive field of a child that is not linked to a parent's.
///
/// The root uses the columns of its own primitive fields. With children it also uses those
/// of the children's own key fields, which are null in its rows, and that of the name. A
/// child uses the columns of its primitive fields and that of the name. In the column of the
/// name the rows of each model have its name.
pub proof fn law_tables_have_no_other_columns(
    s: BuildView,
    db: Capability,
    prefixed: bool,
    root: Model,
    children: Seq<&Model>,
)
    requires
        table_ready(s, root, children),
        distinct_models(root, children),
    ensures
        ({
            let t = built(s, db, prefixed, root, children);
            let n = root.fields@.filter_map(primitive()).len();
            let own = t.mapping[root.id];
            let name = own.model_column->0;
            if children.len() == 0 {
                &&& t.table.columns.len() == s.table.columns.len() + n
                &&& own.columns.len() == n
                &&& own.model_to_table.len() == n
            } else {
                let more = identifiers(all_own_key_columns(t.mapping, children));
                &&& t.table.columns.len() == s.table.columns.len() + n + 1 + own_primitives(
                    s.mapping,
                    children,
                )
                &&& own.model_column is Some
                &&& own.columns.len() == n + more.len() + 1
                &&& own.columns.skip(n as int) == more.push(name)
                &&& own.model_to_table.skip(n as int) == nulls(more.len()).push(
                    Expr::Value(Value::String(root.name.camel_case)),
                )
                &&& forall|k: int|
                    0 <= k < children.len() ==> child_counted(
                        t.mapping[(#[trigger] children[k]).id],
                        *children[k],
                        name,
                    )
            }
        }),
{
    let has_children = children.len() > 0;
    let fields = root_fields(s, root.fields@, root_prefix(root, prefixed), has_children);
    let mapped = map_model(fields, root);
    let a = add_root(s, root, prefixed, has_children);
    let t = built(s, db, prefixed, root, children);
    lemma_root_count(s, root.fields@, root_prefix(root, prefixed), has_children);
    lemma_map_count(fields, root);
    lemma_add_indices(mapped, root.id, root.indices@);
    if has_children {
        let column = model_column(a.table, db, root, children).id;
        let b = add_model_column(a, db, root, children);
        let c = add_children(b, children, root.id);
        let d = BuildView { table: named(c.table), ..c };
        let e = tag_model(d, root, column);
        assert forall|k: int| 0 <= k < children.len() implies (#[trigger] children[k]).id != root.id
            && app::fields_numbered(*children[k]) by {
            assert(child_fits(s.mapping, root, children.take(k), *children[k]));
        }
        lemma_children_extend(b, root.id, children);
        lemma_tags_each(e, children, column);
        lemma_tags_fields(e, children, column);
        assert forall|k: int| 0 <= k < children.len() implies {
            &&& c.mapping[(#[trigger] children[k]).id].fields == t.mapping[children[k].id].fields
            &&& c.mapping[children[k].id].links == t.mapping[children[k].id].links
        } by {
            assert(same_fields(e, t, children[k].id));
        }
        lemma_all_own_same(c.mapping, t.mapping, children);
        assert(t.mapping[root.id] == e.mapping[root.id]);
        let n = root.fields@.filter_map(primitive()).len();
        let more = identifiers(all_own_key_columns(t.mapping, children));
        let own = t.mapping[root.id];
        assert(own.columns.skip(n as int) =~= more.push(column));
        assert(own.model_to_table.skip(n as int) =~= nulls(more.len()).push(
            Expr::Value(Value::String(root.name.camel_case)),
        ));
        assert forall|m: ModelId| (#[trigger] b.mapping[m]).links == s.mapping[m].links by {
            assert(fields.mapping[m].links == s.mapping[m].links);
            if m != root.id {
                assert(mapped.mapping[m] == fields.mapping[m]);
            }
        }
        lemma_own_primitives_same(b.mapping, s.mapping, children);
        assert forall|k: int| 0 <= k < children.len() implies child_counted(
            t.mapping[(#[trigger] children[k]).id],
            *children[k],
            column,
        ) by {
            let m = children[k].id;
            assert(counted(c.mapping[m], *children[k]));
            assert(e.mapping[m] == c.mapping[m]);
            assert(is_tagged(e.mapping[m], t.mapping[m], *children[k], column));
        }
    }
}

/// Whether a child uses a column for each of its primitive fields, and then that of the
/// model's name, with its own name for its expression.
pub open spec fn child_counted(mapping: ModelView, model: Model, name: ColumnId) -> bool {
    let n = model.fields@.filter_map(primitive()).len();
    &&& mapping.columns.len() == n + 1
    &&& mapping.columns.last() == name
    &&& mapping.model_to_table.len() == n + 1
    &&& mapping.model_to_table.last() == Expr::Value(Value::String(model.name.camel_case))
    &&& mapping.model_column == Some(name)
}

proof fn lemma_own_primitives_same(
    a: Map<ModelId, ModelView>,
    b: Map<ModelId, ModelView>,
    children: Seq<&Model>,
)
    requires
        forall|m: ModelId| (#[trigger] a[m]).links == b[m].links,
    ensures
        own_primitives(a, children) == own_primitives(b, children),
    decreases children.len(),
{
    if children.len() > 0 {
        lemma_own_primitives_same(a, b, children.drop_last());
        assert(a[children.last().id].links == b[children.last().id].links);
    }
}

proof fn lemma_longest(models: Seq<&Model>)
    ensures
        forall|k: int|
            0 <= k < models.len() ==> name_size(*(#[trigger] models[k])) <= longest_name(models),
        longest_name(models) > 0 ==> exists|k: int|
            0 <= k < models.len() && name_size(*(#[trigger] models[k])) == longest_name(models),
    decreases models.len(),
{
    if models.len() > 0 {
        let rest = models.drop_last();
        lemma_longest(rest);
        assert forall|k: int| 0 <= k < models.len() implies name_size(*(#[trigger] models[k]))
            <= longest_name(models) by {
            if k < rest.len() {
                assert(rest[k] == models[k]);
            }
        }
        if longest_name(models) > 0 {
            if longest_name(rest) < name_size(*models.last()) {
                assert(name_size(*models[models.len() - 1]) == longest_name(models));
            } else {
                let k = choose|k: int|
                    0 <= k < rest.len() && name_size(*(#[trigger] rest[k])) == longest_name(rest);
                assert(name_size(*models[k]) == longest_name(models));
            }
        }
    }
}

/// The column of the model's name is called `__model`, is part of the primary key and never
/// null. It has room for the name of every model of the table, and for no longer one.
pub proof fn law_name_column_has_room_for_each_name(
    table: TableView,
    db: Capability,
    root: Model,
    children: Seq<&Model>,
)
    requires
        encode_utf8(root.name.camel_case@).len() <= usize::MAX,
        forall|k: int|
            0 <= k < children.len() ==> encode_utf8(
                (#[trigger] children[k]).name.camel_case@,
            ).len() <= usize::MAX,
    ensures
        ({
            let column = model_column(table, db, root, children);
            &&& column.name == "__model"@
            &&& column.ty == db.varchar_ty
            &&& !column.nullable
            &&& column.primary_key
            &&& column.id.table == table.id
            &&& column.id.index == table.columns.len() as usize
            &&& column.storage_ty is VarChar
            &&& encode_utf8(root.name.camel_case@).len() <= column.storage_ty->VarChar_0
            &&& forall|k: int|
                0 <= k < children.len() ==> encode_utf8(
                    (#[trigger] children[k]).name.camel_case@,
                ).len() <= column.storage_ty->VarChar_0
            &&& encode_utf8(root.name.camel_case@).len() == column.storage_ty->VarChar_0
                || exists|k: int|
                0 <= k < children.len() && encode_utf8(
                    (#[trigger] children[k]).name.camel_case@,
                ).len() == column.storage_ty->VarChar_0
        }),
{
    lemma_longest(children);
    let column = model_column(table, db, root, children);
    assert(larger(name_size(root), longest_name(children)) == column.storage_ty->VarChar_0);
    assert forall|k: int| 0 <= k < children.len() implies encode_utf8(
        (#[trigger] children[k]).name.camel_case@,
    ).len() <= column.storage_ty->VarChar_0 by {
        assert(name_size(*children[k]) <= longest_name(children));
    }
    if name_size(root) < longest_name(children) {
        let k = choose|k: int|
            0 <= k < children.len() && name_size(*(#[trigger] children[k])) == longest_name(
                children,
            );
        assert(encode_utf8(children[k].name.camel_case@).len() == column.storage_ty->VarChar_0);
    }
}

/// The column of a primitive field.
pub open spec fn column_for(mapping: ModelView) -> spec_fn(Field) -> Option<ColumnId> {
    |f: Field|
        if f.ty is Primitive {
            Some(stored_at(mapping, f.id))
        } else {
            None
        }
}

/// The expression of a primitive field, in the type of its column.
pub open spec fn expression_for(table: TableView, mapping: ModelView) -> spec_fn(
    Field,
) -> Option<Expr> {
    |f: Field|
        match f.ty {
            FieldTy::Primitive(primitive) => Some(
                converted(
                    Expr::Reference(ExprReference::Field(f.id)),
                    primitive.ty,
                    table.columns[stored_at(mapping, f.id).index as int].ty,
                ),
            ),
            _ => None,
        }
}

/// Each primitive field adds its column and its expression behind those that were gathered
/// before, in the order of the fields. Other fields add nothing.
pub proof fn law_fields_are_lowered_in_order(table: TableView, s: Lowering, fields: Seq<Field>)
    requires
        fields_ready(table, s.mapping, fields),
    ensures
        ({
            let t = lower_fields(table, s, fields);
            &&& t.columns == s.columns + fields.filter_map(column_for(s.mapping))
            &&& t.exprs == s.exprs + fields.filter_map(expression_for(table, s.mapping))
        }),
    decreases fields.len(),
{
    let t = lower_fields(table, s, fields);
    if fields.len() > 0 {
        let rest = fields.drop_last();
        assert forall|i: int| 0 <= i < rest.len() implies field_ready(
            table,
            s.mapping,
            #[trigger] rest[i],
        ) by {
            assert(rest[i] == fields[i]);
        }
        law_fields_are_lowered_in_order(table, s, rest);
        lemma_lower_fields(table, s, rest);
        let u = lower_fields(table, s, rest);
        let last = fields[fields.len() - 1];
        assert(field_ready(table, s.mapping, last));
        if last.ty is Primitive {
            let at = last.id.index as int;
            assert(u.mapping.fields[at] is Some == s.mapping.fields[at] is Some);
        }
    }
    assert(t.columns =~= s.columns + fields.filter_map(column_for(s.mapping)));
    assert(t.exprs =~= s.exprs + fields.filter_map(expression_for(table, s.mapping)));
}

/// A primary key of one expression is that expression, and any other a record of all of
/// its expressions.
pub proof fn law_single_key_is_no_record(exprs: Seq<Expr>)
    ensures
        match key_lowering(exprs) {
            KeyView::One(expr) => exprs.len() == 1 && exprs[0] == expr,
            KeyView::Record(all) => exprs.len() != 1 && exprs == all,
        },
{
}

} // verus!

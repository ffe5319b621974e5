//! What the indices of a built table are over.

use crate::app::{self, Field, FieldId, Model, ModelId};
use crate::build_children::{
    add_child, child_field, child_fields, child_index, child_indices, child_key_field,
    child_key_fields, key_index_count, key_index_place, lemma_key_index_kept,
    lemma_key_index_place, model_column, with_key_column,
};
use crate::build_collection::{
    add_children, add_model_column, built, column_list, index_name, key_count, named, table_ready,
    tag_model, tag_models,
};
use crate::build_table::{
    BuildView, Capability, add_indices, add_root, map_model, root_fields, root_prefix,
};
use crate::db::{ColumnId, ColumnView, IndexColumn, IndexOp, IndexScope, IndexView, TableView};
use crate::delimited::joined;
use crate::mapping::{ModelView, field_key, value_at};
use crate::table_laws::distinct_models;
use vstd::prelude::*;

verus! {

/// The column in which a field of the model is stored.
pub open spec fn stored_at(mapping: ModelView, field: FieldId) -> ColumnId {
    mapping.fields[field.index as int]->0.column
}

/// Whether a column of an index is that of a field of a model's index, with its operator.
pub open spec fn is_column_of(mapping: ModelView, field: app::IndexField, column: IndexColumn) -> bool {
    column.column == stored_at(mapping, field.field) && column.op == field.op
}

/// Whether an index of the table is the one that a model declares: over the columns of the
/// same fields, in their order, with the same operators and scopes, unique if and only if
/// that one is, and over the primary key if and only if that one is.
///
/// That over the primary key may have more columns behind these.
pub open spec fn is_index_of(
    s: BuildView,
    model: ModelId,
    index: app::Index,
    view: IndexView,
) -> bool {
    &&& view.on == s.table.id
    &&& view.unique == index.unique
    &&& view.primary_key == index.primary_key
    &&& index.fields@.len() <= view.columns.len()
    &&& !index.primary_key ==> index.fields@.len() == view.columns.len()
    &&& forall|j: int|
        #![trigger view.columns[j]]
        #![trigger index.fields@[j]]
        0 <= j < index.fields@.len() ==> {
            &&& is_column_of(s.mapping[model], index.fields@[j], view.columns[j])
            &&& view.columns[j].scope == index.fields@[j].scope
        }
}

/// Pairs an index with its model.
pub open spec fn of_model(model: ModelId) -> spec_fn(app::Index) -> (ModelId, app::Index) {
    |index: app::Index| (model, index)
}

/// Pairs an index with its model, if it is not over the primary key.
pub open spec fn other_than_key(model: ModelId) -> spec_fn(app::Index) -> Option<
    (ModelId, app::Index),
> {
    |index: app::Index|
        if index.primary_key {
            None
        } else {
            Some((model, index))
        }
}

/// The indices that models declare: all those of the root, and then those of the children
/// that are not over their primary keys.
pub open spec fn declared(root: Model, children: Seq<&Model>) -> Seq<(ModelId, app::Index)>
    decreases children.len(),
{
    if children.len() == 0 {
        root.indices@.map_values(of_model(root.id))
    } else {
        declared(root, children.drop_last()) + children.last().indices@.filter_map(
            other_than_key(children.last().id),
        )
    }
}

/// Whether the indices of the table from `from` on are those declared, in their order.
pub open spec fn has_declared(
    s: BuildView,
    from: nat,
    all: Seq<(ModelId, app::Index)>,
) -> bool {
    &&& s.table.indices.len() == from + all.len()
    &&& forall|k: int|
        0 <= k < all.len() ==> is_index_of(
            s,
            (#[trigger] all[k]).0,
            all[k].1,
            s.table.indices[from + k],
        )
}

/// Whether `t` stores the fields of a model where `s` does.
pub open spec fn same_fields(s: BuildView, t: BuildView, model: ModelId) -> bool {
    &&& t.mapping[model].fields == s.mapping[model].fields
    &&& t.mapping[model].links == s.mapping[model].links
}

/// Whether `t` has the indices of `s`, with the given columns added to that at `place`
/// and to the primary key, and maybe more indices behind them.
pub open spec fn key_grown(
    s: TableView,
    t: TableView,
    place: int,
    more: Seq<IndexColumn>,
) -> bool {
    &&& t.id == s.id
    &&& t.key_index == s.key_index
    &&& t.key_columns == s.key_columns + more.map_values(|c: IndexColumn| c.column)
    &&& s.indices.len() <= t.indices.len()
    &&& forall|i: int|
        0 <= i < s.indices.len() ==> (#[trigger] t.indices[i]) == (if i == place {
            IndexView { columns: s.indices[i].columns + more, ..s.indices[i] }
        } else {
            s.indices[i]
        })
}

proof fn lemma_grown_trans(
    s: TableView,
    t: TableView,
    u: TableView,
    place: int,
    a: Seq<IndexColumn>,
    b: Seq<IndexColumn>,
)
    requires
        key_grown(s, t, place, a),
        key_grown(t, u, place, b),
    ensures
        key_grown(s, u, place, a + b),
{
    let f = |c: IndexColumn| c.column;
    assert((a + b).map_values(f) =~= a.map_values(f) + b.map_values(f));
    assert(u.key_columns =~= s.key_columns + (a + b).map_values(f));
    assert forall|i: int| 0 <= i < s.indices.len() implies (#[trigger] u.indices[i]) == (if i
        == place {
        IndexView { columns: s.indices[i].columns + (a + b), ..s.indices[i] }
    } else {
        s.indices[i]
    }) by {
        assert(t.indices[i] == t.indices[i]);
        assert(s.indices[i].columns + a + b =~= s.indices[i].columns + (a + b));
    }
}

proof fn lemma_grown_refl(s: TableView, t: TableView, place: int)
    requires
        t.id == s.id,
        t.key_index == s.key_index,
        t.key_columns == s.key_columns,
        s.indices.is_prefix_of(t.indices),
    ensures
        key_grown(s, t, place, Seq::empty()),
{
    let none = Seq::<IndexColumn>::empty();
    assert(t.key_columns =~= s.key_columns + none.map_values(|c: IndexColumn| c.column));
    assert forall|i: int| 0 <= i < s.indices.len() implies (#[trigger] t.indices[i]) == (if i
        == place {
        IndexView { columns: s.indices[i].columns + none, ..s.indices[i] }
    } else {
        s.indices[i]
    }) by {
        assert(s.indices[i].columns + none =~= s.indices[i].columns);
    }
}

/// Indices stay what they were declared as while the key grows.
proof fn lemma_declared_kept(
    s: BuildView,
    t: BuildView,
    place: int,
    more: Seq<IndexColumn>,
    from: nat,
    all: Seq<(ModelId, app::Index)>,
    k: int,
)
    requires
        has_declared(s, from, all),
        0 <= k < all.len(),
        key_grown(s.table, t.table, place, more),
        same_fields(s, t, all[k].0),
        0 <= place < s.table.indices.len(),
        s.table.indices[place].primary_key,
    ensures
        is_index_of(t, all[k].0, all[k].1, t.table.indices[from + k]),
{
    let index = all[k].1;
    let before = s.table.indices[from + k];
    let after = t.table.indices[from + k];
    assert(is_index_of(s, all[k].0, index, before));
    assert(before.columns.is_prefix_of(after.columns));
    assert forall|j: int|
        #![trigger after.columns[j]]
        #![trigger index.fields@[j]]
        0 <= j < index.fields@.len() implies {
        &&& is_column_of(t.mapping[all[k].0], index.fields@[j], after.columns[j])
        &&& after.columns[j].scope == index.fields@[j].scope
    } by {
        assert(after.columns[j] == before.columns[j]);
    }
}

/// Adding indices adds each as it is declared.
proof fn lemma_indices_declared(s: BuildView, model: ModelId, indices: Seq<app::Index>)
    ensures
        ({
            let t = add_indices(s, model, indices);
            &&& t.mapping == s.mapping
            &&& t.table.id == s.table.id
            &&& t.table.columns == s.table.columns
            &&& t.table.key_index == s.table.key_index
            &&& s.table.indices.is_prefix_of(t.table.indices)
            &&& t.table.indices.len() == s.table.indices.len() + indices.len()
            &&& forall|k: int|
                0 <= k < indices.len() ==> is_index_of(
                    t,
                    model,
                    #[trigger] indices[k],
                    t.table.indices[s.table.indices.len() + k],
                ) && t.table.indices[s.table.indices.len() + k].columns.len()
                    == indices[k].fields@.len()
        }),
    decreases indices.len(),
{
    if indices.len() > 0 {
        let rest = indices.drop_last();
        lemma_indices_declared(s, model, rest);
        let u = add_indices(s, model, rest);
        let t = add_indices(s, model, indices);
        assert forall|k: int| 0 <= k < indices.len() implies is_index_of(
            t,
            model,
            #[trigger] indices[k],
            t.table.indices[s.table.indices.len() + k],
        ) && t.table.indices[s.table.indices.len() + k].columns.len() == indices[k].fields@.len() by {
            if k < rest.len() {
                assert(rest[k] == indices[k]);
            }
        }
    }
}

proof fn lemma_root_fields_indices(
    s: BuildView,
    fields: Seq<Field>,
    prefix: Option<Seq<char>>,
    has_children: bool,
)
    ensures
        ({
            let t = root_fields(s, fields, prefix, has_children);
            t.table == (TableView { columns: t.table.columns, ..s.table })
        }),
    decreases fields.len(),
{
    if fields.len() > 0 {
        lemma_root_fields_indices(s, fields.drop_last(), prefix, has_children);
    }
}

pub proof fn lemma_child_fields_indices(
    s: BuildView,
    model: ModelId,
    fields: Seq<Field>,
    prefix: Seq<char>,
)
    requires
        forall|i: int| 0 <= i < fields.len() ==> (#[trigger] fields[i]).id.model == model,
    ensures
        ({
            let t = child_fields(s, model, fields, prefix);
            &&& t.table == (TableView { columns: t.table.columns, ..s.table })
            &&& forall|m: ModelId| m != model ==> #[trigger] t.mapping[m] == s.mapping[m]
        }),
    decreases fields.len(),
{
    if fields.len() > 0 {
        let rest = fields.drop_last();
        assert forall|i: int| 0 <= i < rest.len() implies (#[trigger] rest[i]).id.model
            == model by {
            assert(rest[i] == fields[i]);
        }
        lemma_child_fields_indices(s, model, rest, prefix);
        assert(fields[fields.len() - 1].id.model == model);
        let u = child_fields(s, model, rest, prefix);
        let t = child_field(u, model, fields.last(), prefix);
        assert forall|m: ModelId| m != model implies #[trigger] t.mapping[m] == s.mapping[m] by {
            assert(u.mapping[m] == s.mapping[m]);
        }
    }
}

/// Whether a link leads from the field to a parent's.
pub open spec fn has_link(
    links: Seq<((usize, usize), (usize, usize))>,
    field: FieldId,
) -> bool {
    exists|i: int| 0 <= i < links.len() && (#[trigger] links[i]).0 == (field.model.0, field.index)
}

pub proof fn lemma_has_link(links: Seq<((usize, usize), (usize, usize))>, field: FieldId)
    ensures
        value_at(links, field_key(field)) is Some <==> has_link(links, field),
    decreases links.len(),
{
    if links.len() > 0 {
        let rest = links.drop_last();
        lemma_has_link(rest, field);
        let key = (field.model.0, field.index);
        if has_link(links, field) {
            let i = choose|i: int| 0 <= i < links.len() && (#[trigger] links[i]).0 == key;
            if i < rest.len() {
                assert(rest[i].0 == key);
            }
        }
        if value_at(links, field_key(field)) is Some {
            if has_link(rest, field) {
                let i = choose|i: int| 0 <= i < rest.len() && (#[trigger] rest[i]).0 == key;
                assert(links[i].0 == key);
            } else {
                assert(links[links.len() - 1].0 == key);
            }
        }
    }
}

/// The column that a field of a child's primary key adds to the local key, if the field is
/// not linked to a parent's.
pub open spec fn own_key_column(mapping: ModelView) -> spec_fn(app::IndexField) -> Option<
    IndexColumn,
> {
    |field: app::IndexField|
        if has_link(mapping.links, field.field) {
            None
        } else {
            Some(
                IndexColumn {
                    column: stored_at(mapping, field.field),
                    op: field.op,
                    scope: IndexScope::Local,
                },
            )
        }
}

/// The columns that the primary keys among a child's indices add to the local key.
pub open spec fn own_key_columns(mapping: ModelView, indices: Seq<app::Index>) -> Seq<IndexColumn>
    decreases indices.len(),
{
    if indices.len() == 0 {
        Seq::empty()
    } else {
        own_key_columns(mapping, indices.drop_last()) + (if indices.last().primary_key {
            indices.last().fields@.filter_map(own_key_column(mapping))
        } else {
            Seq::empty()
        })
    }
}

/// The columns that the children add to the local key.
pub open spec fn all_own_key_columns(
    mapping: Map<ModelId, ModelView>,
    children: Seq<&Model>,
) -> Seq<IndexColumn>
    decreases children.len(),
{
    if children.len() == 0 {
        Seq::empty()
    } else {
        all_own_key_columns(mapping, children.drop_last()) + own_key_columns(
            mapping[children.last().id],
            children.last().indices@,
        )
    }
}

/// What a child's key adds depends on where its fields are stored and linked alone.
pub proof fn lemma_own_columns_same(a: ModelView, b: ModelView, indices: Seq<app::Index>)
    requires
        a.fields == b.fields,
        a.links == b.links,
    ensures
        own_key_column(a) == own_key_column(b),
        own_key_columns(a, indices) == own_key_columns(b, indices),
    decreases indices.len(),
{
    assert(own_key_column(a) =~= own_key_column(b));
    if indices.len() > 0 {
        lemma_own_columns_same(a, b, indices.drop_last());
    }
}

proof fn lemma_key_column_grown(table: TableView, column: IndexColumn, place: int)
    requires
        key_index_place(table.indices) == Some(place),
    ensures
        key_grown(table, with_key_column(table, column), place, seq![column]),
        key_index_place(with_key_column(table, column).indices) == Some(place),
        with_key_column(table, column).indices.len() == table.indices.len(),
{
    lemma_key_index_place(table.indices);
    let t = with_key_column(table, column);
    lemma_key_index_kept(table.indices, t.indices);
    let more = seq![column];
    assert(more.map_values(|c: IndexColumn| c.column) =~= seq![column.column]);
    assert(t.key_columns =~= table.key_columns + more.map_values(|c: IndexColumn| c.column));
    assert forall|i: int| 0 <= i < table.indices.len() implies (#[trigger] t.indices[i]) == (if i
        == place {
        IndexView { columns: table.indices[i].columns + more, ..table.indices[i] }
    } else {
        table.indices[i]
    }) by {
        assert(table.indices[i].columns.push(column) =~= table.indices[i].columns + more);
    }
}

/// The fields of a child's primary key add their own columns to the table's.
proof fn lemma_key_fields_grown(
    s: BuildView,
    model: ModelId,
    root: ModelId,
    fields: Seq<app::IndexField>,
    place: int,
)
    requires
        key_index_place(s.table.indices) == Some(place),
    ensures
        ({
            let t = child_key_fields(s, model, root, fields);
            &&& key_grown(
                s.table,
                t.table,
                place,
                fields.filter_map(own_key_column(s.mapping[model])),
            )
            &&& key_index_place(t.table.indices) == Some(place)
            &&& t.table.indices.len() == s.table.indices.len()
            &&& t.table.columns == s.table.columns
            &&& forall|m: ModelId| #[trigger] same_fields(s, t, m)
        }),
    decreases fields.len(),
{
    if fields.len() == 0 {
        lemma_grown_refl(s.table, s.table, place);
    } else {
        let rest = fields.drop_last();
        lemma_key_fields_grown(s, model, root, rest, place);
        let u = child_key_fields(s, model, root, rest);
        let t = child_key_fields(s, model, root, fields);
        let field = fields.last();
        assert(t == child_key_field(u, model, root, field));
        assert(same_fields(s, u, model));
        assert(same_fields(s, u, root));
        lemma_has_link(u.mapping[model].links, field.field);
        let more = rest.filter_map(own_key_column(s.mapping[model]));
        if !u.mapping[model].is_linked(field.field) {
            let column = IndexColumn {
                column: stored_at(u.mapping[model], field.field),
                op: field.op,
                scope: IndexScope::Local,
            };
            lemma_key_column_grown(u.table, column, place);
            lemma_grown_trans(s.table, u.table, t.table, place, more, seq![column]);
            assert(fields.filter_map(own_key_column(s.mapping[model])) =~= more + seq![column]);
        }
        assert forall|m: ModelId| #[trigger] same_fields(s, t, m) by {
            assert(same_fields(s, u, m));
        }
    }
}

/// A child's indices that are not over its primary key are added as declared, and those
/// that are add their own columns to the table's.
proof fn lemma_child_indices_declared(
    s: BuildView,
    model: ModelId,
    root: ModelId,
    indices: Seq<app::Index>,
    place: int,
)
    requires
        key_index_place(s.table.indices) == Some(place),
    ensures
        ({
            let t = child_indices(s, model, root, indices);
            let all = indices.filter_map(other_than_key(model));
            &&& key_grown(s.table, t.table, place, own_key_columns(s.mapping[model], indices))
            &&& key_index_place(t.table.indices) == Some(place)
            &&& t.table.columns == s.table.columns
            &&& has_declared(t, s.table.indices.len(), all)
            &&& forall|m: ModelId| #[trigger] same_fields(s, t, m)
        }),
    decreases indices.len(),
{
    lemma_key_index_place(s.table.indices);
    if indices.len() == 0 {
        lemma_grown_refl(s.table, s.table, place);
    } else {
        let rest = indices.drop_last();
        lemma_child_indices_declared(s, model, root, rest, place);
        let u = child_indices(s, model, root, rest);
        let t = child_indices(s, model, root, indices);
        let index = indices.last();
        assert(t == child_index(u, model, root, index));
        let before = rest.filter_map(other_than_key(model));
        let all = indices.filter_map(other_than_key(model));
        let from = s.table.indices.len();
        let more = own_key_columns(s.mapping[model], rest);
        lemma_key_index_place(u.table.indices);
        let added = if index.primary_key {
            index.fields@.filter_map(own_key_column(s.mapping[model]))
        } else {
            Seq::empty()
        };
        assert(same_fields(s, u, model));
        if index.primary_key {
            lemma_key_fields_grown(u, model, root, index.fields@, place);
            lemma_own_columns_same(s.mapping[model], u.mapping[model], Seq::empty());
        } else {
            lemma_grown_refl(u.table, t.table, place);
            lemma_key_index_kept(u.table.indices, t.table.indices);
        }
        lemma_grown_trans(s.table, u.table, t.table, place, more, added);
        assert forall|m: ModelId| #[trigger] same_fields(s, t, m) by {
            assert(same_fields(s, u, m));
            assert(same_fields(u, t, m));
        }
        assert forall|k: int| 0 <= k < all.len() implies is_index_of(
            t,
            (#[trigger] all[k]).0,
            all[k].1,
            t.table.indices[from + k],
        ) by {
            if k < before.len() {
                assert(all[k] == before[k]);
                assert(same_fields(u, t, before[k].0));
                lemma_declared_kept(u, t, place, added, from, before, k);
            } else {
                assert(!index.primary_key);
                assert(all[k] == (model, index));
                assert(t.table.indices[from + k].columns.len() == index.fields@.len());
            }
        }
    }
}

/// Adding a child adds its indices as declared and keeps those that were there.
proof fn lemma_child_declared(s: BuildView, model: Model, root: ModelId, place: int)
    requires
        app::fields_numbered(model),
        key_index_place(s.table.indices) == Some(place),
    ensures
        ({
            let t = add_child(s, model, root);
            &&& key_grown(
                s.table,
                t.table,
                place,
                own_key_columns(t.mapping[model.id], model.indices@),
            )
            &&& key_index_place(t.table.indices) == Some(place)
            &&& has_declared(
                t,
                s.table.indices.len(),
                model.indices@.filter_map(other_than_key(model.id)),
            )
            &&& forall|m: ModelId| m != model.id ==> #[trigger] same_fields(s, t, m)
        }),
{
    let a = child_fields(s, model.id, model.fields@, model.name.snake_case@);
    let b = map_model(a, model);
    let t = add_child(s, model, root);
    lemma_child_fields_indices(s, model.id, model.fields@, model.name.snake_case@);
    lemma_child_indices_declared(b, model.id, root, model.indices@, place);
    assert(same_fields(b, t, model.id));
    lemma_own_columns_same(b.mapping[model.id], t.mapping[model.id], model.indices@);
    assert forall|m: ModelId| m != model.id implies #[trigger] same_fields(s, t, m) by {
        assert(a.mapping[m] == s.mapping[m]);
        assert(b.mapping[m] == a.mapping[m]);
        assert(same_fields(b, t, m));
    }
}

pub proof fn lemma_all_own_same(
    a: Map<ModelId, ModelView>,
    b: Map<ModelId, ModelView>,
    children: Seq<&Model>,
)
    requires
        forall|k: int|
            0 <= k < children.len() ==> {
                &&& a[(#[trigger] children[k]).id].fields == b[children[k].id].fields
                &&& a[children[k].id].links == b[children[k].id].links
            },
    ensures
        all_own_key_columns(a, children) == all_own_key_columns(b, children),
    decreases children.len(),
{
    if children.len() > 0 {
        let rest = children.drop_last();
        assert forall|k: int| 0 <= k < rest.len() implies {
            &&& a[(#[trigger] rest[k]).id].fields == b[rest[k].id].fields
            &&& a[rest[k].id].links == b[rest[k].id].links
        } by {
            assert(rest[k] == children[k]);
        }
        lemma_all_own_same(a, b, rest);
        let last = children[children.len() - 1];
        lemma_own_columns_same(a[last.id], b[last.id], last.indices@);
    }
}

pub proof fn lemma_declared_of_models(root: Model, children: Seq<&Model>)
    ensures
        forall|k: int|
            0 <= k < declared(root, children).len() ==> ((#[trigger] declared(
                root,
                children,
            )[k]).0 == root.id || exists|j: int|
                0 <= j < children.len() && (#[trigger] children[j]).id == declared(
                    root,
                    children,
                )[k].0),
        root.indices@.map_values(of_model(root.id)).is_prefix_of(declared(root, children)),
    decreases children.len(),
{
    if children.len() > 0 {
        let rest = children.drop_last();
        lemma_declared_of_models(root, rest);
        let before = declared(root, rest);
        let all = declared(root, children);
        let last = children[children.len() - 1];
        let added = last.indices@.filter_map(other_than_key(last.id));
        lemma_added_of_model(last.id, last.indices@);
        assert forall|k: int| 0 <= k < all.len() implies ((#[trigger] all[k]).0 == root.id
            || exists|j: int|
            0 <= j < children.len() && (#[trigger] children[j]).id == all[k].0) by {
            if k < before.len() {
                assert(all[k] == before[k]);
                if before[k].0 != root.id {
                    let j = choose|j: int|
                        0 <= j < rest.len() && (#[trigger] rest[j]).id == before[k].0;
                    assert(children[j].id == all[k].0);
                }
            } else {
                assert(all[k] == added[k - before.len()]);
                assert(last.id == all[k].0);
            }
        }
    }
}

proof fn lemma_added_of_model(model: ModelId, indices: Seq<app::Index>)
    ensures
        forall|k: int|
            0 <= k < indices.filter_map(other_than_key(model)).len() ==> (
            #[trigger] indices.filter_map(other_than_key(model))[k]).0 == model,
    decreases indices.len(),
{
    if indices.len() > 0 {
        let rest = indices.drop_last();
        lemma_added_of_model(model, rest);
        let before = rest.filter_map(other_than_key(model));
        let all = indices.filter_map(other_than_key(model));
        assert forall|k: int| 0 <= k < all.len() implies (#[trigger] all[k]).0 == model by {
            if k < before.len() {
                assert(all[k] == before[k]);
            }
        }
    }
}

/// Adding the children adds their indices as declared, after those of the root.
proof fn lemma_children_declared(
    s: BuildView,
    root: Model,
    children: Seq<&Model>,
    from: nat,
    place: int,
)
    requires
        distinct_models(root, children),
        forall|k: int| 0 <= k < children.len() ==> app::fields_numbered(*(#[trigger] children[k])),
        key_index_place(s.table.indices) == Some(place),
        has_declared(s, from, root.indices@.map_values(of_model(root.id))),
    ensures
        ({
            let t = add_children(s, children, root.id);
            &&& key_grown(s.table, t.table, place, all_own_key_columns(t.mapping, children))
            &&& key_index_place(t.table.indices) == Some(place)
            &&& has_declared(t, from, declared(root, children))
            &&& same_fields(s, t, root.id)
        }),
    decreases children.len(),
{
    if children.len() == 0 {
        lemma_grown_refl(s.table, s.table, place);
    } else {
        let rest = children.drop_last();
        let last = *children.last();
        assert forall|j: int| 0 <= j < rest.len() implies (#[trigger] rest[j]).id != root.id
            && app::fields_numbered(*rest[j]) by {
            assert(rest[j] == children[j]);
        }
        assert forall|j: int, k: int| 0 <= j < k < rest.len() implies (#[trigger] rest[j]).id != (
        #[trigger] rest[k]).id by {
            assert(rest[j] == children[j] && rest[k] == children[k]);
        }
        lemma_children_declared(s, root, rest, from, place);
        let u = add_children(s, rest, root.id);
        let t = add_children(s, children, root.id);
        assert(children[children.len() - 1].id != root.id);
        assert(app::fields_numbered(*children[children.len() - 1]));
        lemma_child_declared(u, last, root.id, place);
        lemma_key_index_place(u.table.indices);
        let before = declared(root, rest);
        let added = last.indices@.filter_map(other_than_key(last.id));
        let all = declared(root, children);
        let more = own_key_columns(t.mapping[last.id], last.indices@);
        assert forall|k: int| 0 <= k < rest.len() implies {
            &&& u.mapping[(#[trigger] rest[k]).id].fields == t.mapping[rest[k].id].fields
            &&& u.mapping[rest[k].id].links == t.mapping[rest[k].id].links
        } by {
            assert(rest[k] == children[k]);
            assert(children[k].id != children[children.len() - 1].id);
            assert(same_fields(u, t, rest[k].id));
        }
        lemma_all_own_same(u.mapping, t.mapping, rest);
        lemma_grown_trans(
            s.table,
            u.table,
            t.table,
            place,
            all_own_key_columns(u.mapping, rest),
            more,
        );
        assert(same_fields(u, t, root.id));
        lemma_declared_of_models(root, rest);
        assert forall|k: int| 0 <= k < all.len() implies is_index_of(
            t,
            (#[trigger] all[k]).0,
            all[k].1,
            t.table.indices[from + k],
        ) by {
            if k < before.len() {
                assert(all[k] == before[k]);
                assert(before[k].0 != last.id) by {
                    if before[k].0 != root.id {
                        let j = choose|j: int|
                            0 <= j < rest.len() && (#[trigger] rest[j]).id == before[k].0;
                        assert(rest[j] == children[j]);
                        assert(children[j].id != children[children.len() - 1].id);
                    }
                }
                assert(same_fields(u, t, before[k].0));
                lemma_declared_kept(u, t, place, more, from, before, k);
            } else {
                assert(all[k] == added[k - before.len()]);
            }
        }
    }
}

pub proof fn lemma_tags_fields(s: BuildView, models: Seq<&Model>, column: ColumnId)
    ensures
        forall|m: ModelId| #[trigger] same_fields(s, tag_models(s, models, column), m),
        tag_models(s, models, column).table == s.table,
    decreases models.len(),
{
    if models.len() > 0 {
        let u = tag_models(s, models.drop_last(), column);
        lemma_tags_fields(s, models.drop_last(), column);
        let t = tag_models(s, models, column);
        assert forall|m: ModelId| #[trigger] same_fields(s, t, m) by {
            assert(same_fields(s, u, m));
        }
    }
}

proof fn lemma_has_key(indices: Seq<app::Index>)
    ensures
        key_count(indices) > 0 ==> exists|k: int|
            0 <= k < indices.len() && (#[trigger] indices[k]).primary_key,
    decreases indices.len(),
{
    if indices.len() > 0 {
        let rest = indices.drop_last();
        lemma_has_key(rest);
        if indices.last().primary_key {
            assert(indices[indices.len() - 1].primary_key);
        } else if key_count(indices) > 0 {
            let k = choose|k: int| 0 <= k < rest.len() && (#[trigger] rest[k]).primary_key;
            assert(indices[k].primary_key);
        }
    }
}

/// Adding the root to a table without indices adds its indices as declared.
proof fn lemma_root_declared(s: BuildView, root: Model, prefixed: bool, has_children: bool)
    requires
        s.table.indices.len() == 0,
    ensures
        ({
            let t = add_root(s, root, prefixed, has_children);
            &&& has_declared(t, 0, root.indices@.map_values(of_model(root.id)))
            &&& t.table.id == s.table.id
            &&& t.table.key_index == s.table.key_index
            &&& key_count(root.indices@) > 0 ==> key_index_place(t.table.indices) is Some
            &&& forall|k: int|
                0 <= k < root.indices@.len() ==> (#[trigger] t.table.indices[k]).columns.len()
                    == root.indices@[k].fields@.len()
        }),
{
    let a = root_fields(s, root.fields@, root_prefix(root, prefixed), has_children);
    let b = map_model(a, root);
    let t = add_root(s, root, prefixed, has_children);
    lemma_root_fields_indices(s, root.fields@, root_prefix(root, prefixed), has_children);
    lemma_indices_declared(b, root.id, root.indices@);
    let all = root.indices@.map_values(of_model(root.id));
    assert forall|k: int| 0 <= k < all.len() implies is_index_of(
        t,
        (#[trigger] all[k]).0,
        all[k].1,
        t.table.indices[0 + k],
    ) by {
        assert(all[k] == (root.id, root.indices@[k]));
        assert(is_index_of(t, root.id, root.indices@[k], t.table.indices[k]));
    }
    assert forall|k: int| 0 <= k < root.indices@.len() implies (
    #[trigger] t.table.indices[k]).columns.len() == root.indices@[k].fields@.len() by {
        assert(is_index_of(t, root.id, root.indices@[k], t.table.indices[k]));
    }
    lemma_has_key(root.indices@);
    lemma_key_index_place(t.table.indices);
    if key_count(root.indices@) > 0 {
        let k = choose|k: int|
            0 <= k < root.indices@.len() && (#[trigger] root.indices@[k]).primary_key;
        assert(is_index_of(t, root.id, root.indices@[k], t.table.indices[k]));
        assert(t.table.indices[k].primary_key);
    }
}

/// Naming the indices and the models leaves the indices what they are.
proof fn lemma_declared_named(
    s: BuildView,
    t: BuildView,
    all: Seq<(ModelId, app::Index)>,
)
    requires
        has_declared(s, 0, all),
        t.table == named(s.table),
        forall|m: ModelId| #[trigger] same_fields(s, t, m),
    ensures
        has_declared(t, 0, all),
{
    assert forall|k: int| 0 <= k < all.len() implies is_index_of(
        t,
        (#[trigger] all[k]).0,
        all[k].1,
        t.table.indices[0 + k],
    ) by {
        let index = all[k].1;
        let before = s.table.indices[k];
        assert(is_index_of(s, all[k].0, index, s.table.indices[0 + k]));
        assert(same_fields(s, t, all[k].0));
        assert(t.table.indices[k].columns == before.columns);
        assert forall|j: int|
            #![trigger t.table.indices[k].columns[j]]
            #![trigger index.fields@[j]]
            0 <= j < index.fields@.len() implies {
            &&& is_column_of(
                t.mapping[all[k].0],
                index.fields@[j],
                t.table.indices[k].columns[j],
            )
            &&& t.table.indices[k].columns[j].scope == index.fields@[j].scope
        } by {
            assert(is_column_of(s.mapping[all[k].0], index.fields@[j], before.columns[j]));
        }
    }
}

/// What the parts of the building add to the indices, with children.
proof fn lemma_built_with_children(
    s: BuildView,
    db: Capability,
    prefixed: bool,
    root: Model,
    children: Seq<&Model>,
)
    requires
        table_ready(s, root, children),
        distinct_models(root, children),
        s.table.indices.len() == 0,
        children.len() > 0,
    ensures
        ({
            let a = add_root(s, root, prefixed, true);
            let t = built(s, db, prefixed, root, children);
            let column = IndexColumn {
                column: model_column(a.table, db, root, children).id,
                op: IndexOp::Eq,
                scope: IndexScope::Local,
            };
            let place = key_index_place(a.table.indices)->0;
            &&& has_declared(t, 0, declared(root, children))
            &&& same_fields(a, t, root.id)
            &&& t.table.key_index == s.table.key_index
            &&& 0 <= place < a.table.indices.len()
            &&& a.table.indices[place].primary_key
            &&& t.table.indices[place].columns == a.table.indices[place].columns + (seq![column]
                + all_own_key_columns(t.mapping, children))
            &&& t.table.key_columns == a.table.key_columns + (seq![column]
                + all_own_key_columns(t.mapping, children)).map_values(
                |c: IndexColumn| c.column,
            )
        }),
{
    let a = add_root(s, root, prefixed, true);
    let new = model_column(a.table, db, root, children);
    let b = add_model_column(a, db, root, children);
    let c = add_children(b, children, root.id);
    let d = BuildView { table: named(c.table), ..c };
    let e = tag_model(d, root, new.id);
    let t = built(s, db, prefixed, root, children);
    lemma_root_declared(s, root, prefixed, true);
    assert(key_index_count(s.table.indices) == 0);
    let place = key_index_place(a.table.indices)->0;
    lemma_key_index_place(a.table.indices);
    let column = IndexColumn { column: new.id, op: IndexOp::Eq, scope: IndexScope::Local };
    let wider = TableView { columns: a.table.columns.push(new), ..a.table };
    lemma_key_column_grown(wider, column, place);
    let all = root.indices@.map_values(of_model(root.id));
    assert(key_grown(a.table, b.table, place, seq![column]));
    assert forall|k: int| 0 <= k < all.len() implies is_index_of(
        b,
        (#[trigger] all[k]).0,
        all[k].1,
        b.table.indices[0 + k],
    ) by {
        assert(same_fields(a, b, all[k].0));
        lemma_declared_kept(a, b, place, seq![column], 0, all, k);
    }
    assert(has_declared(b, 0, all));
    assert forall|k: int| 0 <= k < children.len() implies app::fields_numbered(
        *(#[trigger] children[k]),
    ) by {
        assert(crate::build_collection::child_fits(
            s.mapping,
            root,
            children.take(k),
            *children[k],
        ));
    }
    lemma_children_declared(b, root, children, 0, place);
    lemma_grown_trans(
        a.table,
        b.table,
        c.table,
        place,
        seq![column],
        all_own_key_columns(c.mapping, children),
    );
    lemma_tags_fields(e, children, new.id);
    assert forall|m: ModelId| #[trigger] same_fields(c, t, m) by {
        assert(same_fields(c, e, m));
        assert(same_fields(e, t, m));
    }
    lemma_declared_named(c, t, declared(root, children));
    assert forall|k: int| 0 <= k < children.len() implies {
        &&& c.mapping[(#[trigger] children[k]).id].fields == t.mapping[children[k].id].fields
        &&& c.mapping[children[k].id].links == t.mapping[children[k].id].links
    } by {
        assert(same_fields(c, t, children[k].id));
    }
    lemma_all_own_same(c.mapping, t.mapping, children);
    assert(same_fields(c, t, root.id));
    assert(c.table.indices[place] == c.table.indices[place]);
}

/// The indices of a built table are those that its models declare: all of the root's, and
/// all of the children's that are not over their primary keys, each over the columns of
/// the same fields, with the same operators and scopes, and unique if and only if it is
/// declared so. It has no other.
pub proof fn law_indices_are_those_declared(
    s: BuildView,
    db: Capability,
    prefixed: bool,
    root: Model,
    children: Seq<&Model>,
)
    requires
        table_ready(s, root, children),
        distinct_models(root, children),
        s.table.indices.len() == 0,
    ensures
        has_declared(built(s, db, prefixed, root, children), 0, declared(root, children)),
{
    if children.len() > 0 {
        lemma_built_with_children(s, db, prefixed, root, children);
    } else {
        let a = add_root(s, root, prefixed, false);
        lemma_root_declared(s, root, prefixed, false);
        let t = built(s, db, prefixed, root, children);
        assert forall|m: ModelId| #[trigger] same_fields(a, t, m) by {}
        lemma_declared_named(a, t, declared(root, children));
    }
}

proof fn lemma_declared_has_child(root: Model, children: Seq<&Model>, c: int, i: int)
    requires
        0 <= c < children.len(),
        0 <= i < children[c].indices@.len(),
        !children[c].indices@[i].primary_key,
    ensures
        declared(root, children).contains((children[c].id, children[c].indices@[i])),
    decreases children.len(),
{
    let rest = children.drop_last();
    let all = declared(root, children);
    let want = (children[c].id, children[c].indices@[i]);
    if c < rest.len() {
        assert(rest[c] == children[c]);
        lemma_declared_has_child(root, rest, c, i);
        let before = declared(root, rest);
        let k = choose|k: int| 0 <= k < before.len() && before[k] == want;
        assert(all[k] == want);
    } else {
        let added = children[c].indices@.filter_map(other_than_key(children[c].id));
        lemma_added_has(children[c].id, children[c].indices@, i);
        let k = choose|k: int| 0 <= k < added.len() && added[k] == want;
        assert(all[declared(root, rest).len() + k] == want);
    }
}

proof fn lemma_added_has(model: ModelId, indices: Seq<app::Index>, i: int)
    requires
        0 <= i < indices.len(),
        !indices[i].primary_key,
    ensures
        indices.filter_map(other_than_key(model)).contains((model, indices[i])),
    decreases indices.len(),
{
    let all = indices.filter_map(other_than_key(model));
    let rest = indices.drop_last();
    if i < rest.len() {
        assert(rest[i] == indices[i]);
        lemma_added_has(model, rest, i);
        let before = rest.filter_map(other_than_key(model));
        let k = choose|k: int| 0 <= k < before.len() && before[k] == (model, indices[i]);
        assert(all[k] == (model, indices[i]));
    } else {
        assert(all[all.len() - 1] == (model, indices[i]));
    }
}

/// Whether the table has an index like the one that a model declares.
pub open spec fn has_index(s: BuildView, model: ModelId, index: app::Index) -> bool {
    exists|k: int|
        0 <= k < s.table.indices.len() && is_index_of(
            s,
            model,
            index,
            #[trigger] s.table.indices[k],
        )
}

/// Every index of a model that is not over its primary key is in the built table: over
/// the columns of the same fields, with the same operators and scopes, unique if and only
/// if the model declares it so. That holds of the root as of the children.
pub proof fn law_every_index_is_built(
    s: BuildView,
    db: Capability,
    prefixed: bool,
    root: Model,
    children: Seq<&Model>,
)
    requires
        table_ready(s, root, children),
        distinct_models(root, children),
        s.table.indices.len() == 0,
    ensures
        ({
            let t = built(s, db, prefixed, root, children);
            &&& forall|i: int|
                0 <= i < root.indices@.len() ==> has_index(t, root.id, #[trigger] root.indices@[i])
            &&& forall|c: int, i: int|
                0 <= c < children.len() && 0 <= i < children[c].indices@.len() && !(
                #[trigger] children[c].indices@[i]).primary_key ==> has_index(
                    t,
                    children[c].id,
                    children[c].indices@[i],
                )
        }),
{
    let t = built(s, db, prefixed, root, children);
    let all = declared(root, children);
    law_indices_are_those_declared(s, db, prefixed, root, children);
    lemma_declared_of_models(root, children);
    let own = root.indices@.map_values(of_model(root.id));
    assert forall|i: int| 0 <= i < root.indices@.len() implies has_index(
        t,
        root.id,
        #[trigger] root.indices@[i],
    ) by {
        assert(own[i] == (root.id, root.indices@[i]));
        assert(all[i] == own[i]);
        assert(is_index_of(t, all[i].0, all[i].1, t.table.indices[0 + i]));
    }
    assert forall|c: int, i: int|
        0 <= c < children.len() && 0 <= i < children[c].indices@.len() && !(
        #[trigger] children[c].indices@[i]).primary_key implies has_index(
        t,
        children[c].id,
        children[c].indices@[i],
    ) by {
        lemma_declared_has_child(root, children, c, i);
        let want = (children[c].id, children[c].indices@[i]);
        let k = choose|k: int| 0 <= k < all.len() && all[k] == want;
        assert(is_index_of(t, all[k].0, all[k].1, t.table.indices[0 + k]));
    }
}

/// Keeps an index if it is over the primary key.
pub open spec fn over_key() -> spec_fn(app::Index) -> Option<app::Index> {
    |index: app::Index|
        if index.primary_key {
            Some(index)
        } else {
            None
        }
}

/// The columns of the fields of an index, in their order.
pub open spec fn field_columns(mapping: ModelView, fields: Seq<app::IndexField>) -> Seq<
    IndexColumn,
> {
    Seq::new(
        fields.len(),
        |j: int|
            IndexColumn {
                column: stored_at(mapping, fields[j].field),
                op: fields[j].op,
                scope: fields[j].scope,
            },
    )
}

proof fn lemma_key_columns(s: BuildView, model: ModelId, indices: Seq<app::Index>, p: int)
    requires
        forall|k: int|
            0 <= k < indices.len() ==> (#[trigger] indices[k]).primary_key == (k == p),
    ensures
        add_indices(s, model, indices).table.key_columns == (if 0 <= p < indices.len() {
            s.table.key_columns + field_columns(s.mapping[model], indices[p].fields@).map_values(
                |c: IndexColumn| c.column,
            )
        } else {
            s.table.key_columns
        }),
    decreases indices.len(),
{
    if indices.len() > 0 {
        let rest = indices.drop_last();
        assert forall|k: int| 0 <= k < rest.len() implies (#[trigger] rest[k]).primary_key == (k
            == p) by {
            assert(rest[k] == indices[k]);
        }
        lemma_key_columns(s, model, rest, p);
        lemma_indices_declared(s, model, rest);
        let u = add_indices(s, model, rest);
        let t = add_indices(s, model, indices);
        assert(indices[indices.len() - 1].primary_key == (indices.len() - 1 == p));
        if p == indices.len() - 1 {
            assert(t.table.key_columns =~= s.table.key_columns + field_columns(
                s.mapping[model],
                indices[p].fields@,
            ).map_values(|c: IndexColumn| c.column));
        }
    }
}

/// The primary key of a built table is made of the columns of the root's primary key, with
/// the operators and scopes that the root declares. With children there follow the column
/// of the model's name and, child by child, the columns of the fields of the child's
/// primary key that are not linked to a parent's, all of them in the local key. There is
/// nothing else in it, and the list of key columns says the same.
pub proof fn law_key_is_made_of_declared_keys(
    s: BuildView,
    db: Capability,
    prefixed: bool,
    root: Model,
    children: Seq<&Model>,
    p: int,
)
    requires
        table_ready(s, root, children),
        distinct_models(root, children),
        s.table.indices.len() == 0,
        s.table.key_columns.len() == 0,
        0 <= p < root.indices@.len(),
        forall|k: int|
            0 <= k < root.indices@.len() ==> (#[trigger] root.indices@[k]).primary_key == (k == p),
    ensures
        ({
            let t = built(s, db, prefixed, root, children);
            let own = field_columns(t.mapping[root.id], root.indices@[p].fields@);
            let named = IndexColumn {
                column: t.mapping[root.id].model_column->0,
                op: IndexOp::Eq,
                scope: IndexScope::Local,
            };
            &&& t.table.indices[p].primary_key
            &&& t.table.key_index == s.table.key_index
            &&& t.table.indices[p].columns == own + (if children.len() == 0 {
                Seq::empty()
            } else {
                seq![named] + all_own_key_columns(t.mapping, children)
            })
            &&& t.table.key_columns == t.table.indices[p].columns.map_values(
                |c: IndexColumn| c.column,
            )
        }),
{
    let has_children = children.len() > 0;
    let a = add_root(s, root, prefixed, has_children);
    let b = map_model(
        root_fields(s, root.fields@, root_prefix(root, prefixed), has_children),
        root,
    );
    let t = built(s, db, prefixed, root, children);
    lemma_root_fields_indices(s, root.fields@, root_prefix(root, prefixed), has_children);
    lemma_root_declared(s, root, prefixed, has_children);
    lemma_indices_declared(b, root.id, root.indices@);
    lemma_key_columns(b, root.id, root.indices@, p);
    let fields = root.indices@[p].fields@;
    let own = field_columns(a.mapping[root.id], fields);
    assert(is_index_of(a, root.id, root.indices@[p], a.table.indices[p]));
    assert(a.table.indices[p].columns =~= own) by {
        let view = a.table.indices[p];
        assert forall|j: int| 0 <= j < fields.len() implies view.columns[j] == own[j] by {
            assert(is_column_of(a.mapping[root.id], fields[j], view.columns[j]));
        }
    }
    let ids = |c: IndexColumn| c.column;
    assert(a.table.key_columns =~= own.map_values(ids));
    if has_children {
        lemma_built_with_children(s, db, prefixed, root, children);
        lemma_key_index_place(a.table.indices);
        let place = key_index_place(a.table.indices)->0;
        assert(is_index_of(a, root.id, root.indices@[place], a.table.indices[place]));
        assert(place == p);
        assert(own =~= field_columns(t.mapping[root.id], fields));
        let new = model_column(a.table, db, root, children);
        let c = add_children(add_model_column(a, db, root, children), children, root.id);
        let e = tag_model(BuildView { table: named(c.table), ..c }, root, new.id);
        lemma_tags_column(e, children, new.id, root.id);
        assert(t.mapping[root.id].model_column == Some(new.id));
        let more = seq![IndexColumn { column: new.id, op: IndexOp::Eq, scope: IndexScope::Local }]
            + all_own_key_columns(t.mapping, children);
        assert((own + more).map_values(ids) =~= own.map_values(ids) + more.map_values(ids));
        assert(t.table.key_columns =~= t.table.indices[p].columns.map_values(ids));
        law_indices_are_those_declared(s, db, prefixed, root, children);
        lemma_declared_of_models(root, children);
        let all = declared(root, children);
        assert(root.indices@.map_values(of_model(root.id))[p] == (root.id, root.indices@[p]));
        assert(all[p] == (root.id, root.indices@[p]));
        assert(is_index_of(t, all[p].0, all[p].1, t.table.indices[0 + p]));
    } else {
        assert(t.table.indices[p].columns =~= own + Seq::empty());
    }
}

/// Naming other models in their rows leaves the model's column as it is.
proof fn lemma_tags_column(s: BuildView, models: Seq<&Model>, column: ColumnId, root: ModelId)
    requires
        s.mapping[root].model_column == Some(column),
    ensures
        tag_models(s, models, column).mapping[root].model_column == Some(column),
    decreases models.len(),
{
    if models.len() > 0 {
        lemma_tags_column(s, models.drop_last(), column, root);
    }
}

proof fn lemma_column_list(stored: Seq<ColumnView>, columns: Seq<IndexColumn>)
    requires
        columns.len() > 0,
    ensures
        column_list(stored, columns) == "_"@ + joined(
            Seq::new(columns.len(), |j: int| stored[columns[j].column.index as int].name),
            "_and_"@,
        ),
    decreases columns.len(),
{
    let names = Seq::new(columns.len(), |j: int| stored[columns[j].column.index as int].name);
    if columns.len() == 1 {
        assert(columns.drop_last() =~= Seq::empty());
        assert(column_list(stored, columns.drop_last()) =~= Seq::<char>::empty());
        assert(column_list(stored, columns) =~= "_"@ + joined(names, "_and_"@));
    } else {
        let rest = columns.drop_last();
        lemma_column_list(stored, rest);
        let before = Seq::new(rest.len(), |j: int| stored[rest[j].column.index as int].name);
        assert(names.drop_last() =~= before);
        assert("_and"@ + "_"@ =~= "_and_"@) by {
            reveal_strlit("_and");
            reveal_strlit("_");
            reveal_strlit("_and_");
        }
        assert(column_list(stored, columns) =~= column_list(stored, rest) + ("_and"@ + "_"@)
            + names.last());
        assert(column_list(stored, columns) =~= "_"@ + joined(names, "_and_"@));
    }
}

/// An index is named after its table and its columns, in their order, with `and` between
/// each two.
pub proof fn law_index_name_lists_columns(table: TableView, columns: Seq<IndexColumn>)
    requires
        columns.len() > 0,
    ensures
        index_name(table, columns) == "index_"@ + table.name + "_by_"@ + joined(
            Seq::new(columns.len(), |j: int| table.columns[columns[j].column.index as int].name),
            "_and_"@,
        ),
{
    lemma_column_list(table.columns, columns);
    let names = Seq::new(
        columns.len(),
        |j: int| table.columns[columns[j].column.index as int].name,
    );
    assert("_by"@ + "_"@ =~= "_by_"@) by {
        reveal_strlit("_by");
        reveal_strlit("_");
        reveal_strlit("_by_");
    }
    assert(index_name(table, columns) =~= "index_"@ + table.name + ("_by"@ + "_"@) + joined(
        names,
        "_and_"@,
    ));
}

} // verus!

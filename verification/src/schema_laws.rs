//! What holds of tables and paths whatever the models are.

use crate::app::{self, Field, FieldId, FieldTy, ForeignKeyField, Model, ModelId};
use crate::build_children::{child_fields, child_indices, child_key_fields, model_column};
use crate::build_collection::{add_children, add_model_column, built, named, tag_model};
use crate::build_schema::{
    Builder, SchemaView, add_table, has_root, lemma_path_distinct, numbered, path_to, prefixed,
    root_of, stub,
};
use crate::build_table::{
    BuildView, Capability, add_root, lemma_add_indices, map_model, root_fields, root_prefix,
};
use crate::build_tables::{build_all, lemma_tags_table, stored_in};
use crate::collection_links::{
    all_mapped, is_key_link, key_links, key_sources, lemma_path_ends, lemma_place_path, link_all,
    parents_of, place_path, populated,
};
use crate::db::{TableId, TableView};
use crate::mapping::{ModelView, field_key, lemma_with_entry, value_at};
use vstd::prelude::*;

verus! {

/// The name of the table that a model asks for.
pub open spec fn wanted_name(builder: Builder, model: Model) -> Seq<char> {
    match model.table_name {
        Some(name) => prefixed(builder, name@),
        None => prefixed(builder, model.name.plural@),
    }
}

/// Whether the model's table is only known once its root has one.
pub open spec fn is_deferred(model: Model) -> bool {
    model.table_name is None && model.item_collection is Some
}

/// Every table stands at the position that its identifier says and is found under
/// its name, and giving a model its table keeps that so. The model's table has the
/// name that the model asks for.
pub proof fn law_stub_keeps_numbering(s: SchemaView, builder: Builder, model: Model)
    requires
        numbered(s),
        s.tables.len() < usize::MAX,
        model.table_name is None && model.item_collection is None ==> !s.lookup.contains_key(
            wanted_name(builder, model),
        ),
    ensures
        ({
            let (t, id) = stub(s, builder, model);
            &&& numbered(t)
            &&& is_deferred(model) ==> id == TableId::placeholder_view() && t == s
            &&& !is_deferred(model) ==> id.0 < t.tables.len() && t.tables[id.0 as int].name
                == wanted_name(builder, model)
        }),
{
    let name = wanted_name(builder, model);
    if !is_deferred(model) && !s.lookup.contains_key(name) {
        let t = add_table(s, name);
        assert(t.lookup.dom() =~= s.lookup.dom().insert(name));
        assert forall|other: Seq<char>| #[trigger] t.lookup.contains_key(other) implies t.lookup[other].0
            < t.tables.len() && t.tables[t.lookup[other].0 as int].name == other by {
            if other != name {
                assert(s.lookup.contains_key(other));
            }
        }
        assert(numbered(t));
    }
}

/// Two models that ask for the same table name share one table.
pub proof fn law_same_name_same_table(s: SchemaView, builder: Builder, a: Model, b: Model)
    requires
        a.table_name is Some,
        b.table_name is Some,
        a.table_name->0@ == b.table_name->0@,
    ensures
        stub(stub(s, builder, a).0, builder, b) == stub(s, builder, a),
{
}

/// Whether every mapping is that of its model, and every path that is not empty
/// ends with its model.
pub open spec fn paths_end(mapping: Map<ModelId, ModelView>) -> bool {
    forall|m: ModelId| #[trigger]
        mapping.contains_key(m) ==> mapping[m].id == m && mapping[m].path_ends_here()
}

/// A path that is not empty ends with its own model, and stays so while children
/// are linked to their collections.
pub proof fn law_path_ends_with_model(s: SchemaView, models: Seq<Model>, model: Model)
    requires
        paths_end(s.mapping),
        has_root(models, model),
        all_mapped(s.mapping, path_to(models, model)),
    ensures
        paths_end(populated(s, models, model).mapping),
{
    let path = path_to(models, model);
    let table = s.mapping[root_of(models, model).id].table;
    lemma_place_path(s.mapping, table, path, path.len());
    let t = populated(s, models, model);
    let placed = place_path(s.mapping, table, path, path.len());
    lemma_path_ends(models, model);
    assert forall|m: ModelId| #[trigger] t.mapping.contains_key(m) implies t.mapping[m].id == m
        && t.mapping[m].path_ends_here() by {
        assert(s.mapping.contains_key(path.last()));
        assert(s.mapping.contains_key(m));
        assert(placed[m].id == m);
    }
}

/// A child and all the models above it are stored in the table of their root, and
/// have a path.
pub proof fn law_collection_shares_table(s: SchemaView, models: Seq<Model>, model: Model, i: int)
    requires
        has_root(models, model),
        all_mapped(s.mapping, path_to(models, model)),
        0 <= i < path_to(models, model).len(),
    ensures
        ({
            let t = populated(s, models, model);
            let m = path_to(models, model)[i];
            &&& t.mapping[m].table == s.mapping[root_of(models, model).id].table
            &&& t.mapping[m].path.len() > 0
        }),
{
    let path = path_to(models, model);
    let table = s.mapping[root_of(models, model).id].table;
    lemma_place_path(s.mapping, table, path, path.len());
    assert(path.take(path.len() as int) =~= path);
    let m = path[i];
    assert(path.contains(m));
    let placed = place_path(s.mapping, table, path, path.len());
    assert(placed[m].table == table && placed[m].path.len() > 0);
}

/// A child that had no path gets the one that leads from its root to it.
pub proof fn law_child_path_starts_at_root(s: SchemaView, models: Seq<Model>, model: Model)
    requires
        has_root(models, model),
        all_mapped(s.mapping, path_to(models, model)),
        app::find_model(models, model.id) == model,
        s.mapping[model.id].path.len() == 0,
    ensures
        populated(s, models, model).mapping[model.id].path == path_to(models, model),
{
    let path = path_to(models, model);
    let table = s.mapping[root_of(models, model).id].table;
    lemma_path_ends(models, model);
    lemma_path_distinct(models, model);
    let k = (path.len() - 1) as nat;
    lemma_place_path(s.mapping, table, path, k);
    let before = place_path(s.mapping, table, path, k);
    assert(!path.take(k as int).contains(model.id)) by {
        if path.take(k as int).contains(model.id) {
            let j = path.take(k as int).index_of(model.id);
            assert(path[j] == path[k as int]);
        }
    }
    assert(before[model.id] == s.mapping[model.id]);
    assert(path.take(path.len() as int) =~= path);
}

/// Whether a table has kept its identifier and its name.
pub open spec fn same_table(s: TableView, t: TableView) -> bool {
    t.id == s.id && t.name == s.name
}

proof fn lemma_root_fields_same(
    s: BuildView,
    fields: Seq<Field>,
    prefix: Option<Seq<char>>,
    has_children: bool,
)
    ensures
        same_table(s.table, root_fields(s, fields, prefix, has_children).table),
    decreases fields.len(),
{
    if fields.len() > 0 {
        lemma_root_fields_same(s, fields.drop_last(), prefix, has_children);
    }
}

proof fn lemma_child_fields_same(
    s: BuildView,
    model: ModelId,
    fields: Seq<Field>,
    prefix: Seq<char>,
)
    ensures
        same_table(s.table, child_fields(s, model, fields, prefix).table),
    decreases fields.len(),
{
    if fields.len() > 0 {
        lemma_child_fields_same(s, model, fields.drop_last(), prefix);
    }
}

proof fn lemma_key_fields_same(
    s: BuildView,
    model: ModelId,
    root: ModelId,
    fields: Seq<app::IndexField>,
)
    ensures
        same_table(s.table, child_key_fields(s, model, root, fields).table),
    decreases fields.len(),
{
    if fields.len() > 0 {
        lemma_key_fields_same(s, model, root, fields.drop_last());
    }
}

proof fn lemma_child_indices_same(
    s: BuildView,
    model: ModelId,
    root: ModelId,
    indices: Seq<app::Index>,
)
    ensures
        same_table(s.table, child_indices(s, model, root, indices).table),
    decreases indices.len(),
{
    if indices.len() > 0 {
        let u = child_indices(s, model, root, indices.drop_last());
        lemma_child_indices_same(s, model, root, indices.drop_last());
        if indices.last().primary_key {
            lemma_key_fields_same(u, model, root, indices.last().fields@);
        }
    }
}

proof fn lemma_children_same(s: BuildView, children: Seq<&Model>, root: ModelId)
    ensures
        same_table(s.table, add_children(s, children, root).table),
    decreases children.len(),
{
    if children.len() > 0 {
        let u = add_children(s, children.drop_last(), root);
        let model = *children.last();
        let a = child_fields(u, model.id, model.fields@, model.name.snake_case@);
        lemma_children_same(s, children.drop_last(), root);
        lemma_child_fields_same(u, model.id, model.fields@, model.name.snake_case@);
        lemma_child_indices_same(map_model(a, model), model.id, root, model.indices@);
    }
}

proof fn lemma_built_same(
    s: BuildView,
    db: Capability,
    prefixed: bool,
    root: Model,
    children: Seq<&Model>,
)
    ensures
        same_table(s.table, built(s, db, prefixed, root, children).table),
{
    let prefix = root_prefix(root, prefixed);
    let fields = root_fields(s, root.fields@, prefix, children.len() > 0);
    let a = add_root(s, root, prefixed, children.len() > 0);
    lemma_root_fields_same(s, root.fields@, prefix, children.len() > 0);
    lemma_add_indices(map_model(fields, root), root.id, root.indices@);
    if children.len() > 0 {
        let column = model_column(a.table, db, root, children).id;
        let c = add_model_column(a, db, root, children);
        let d = add_children(c, children, root.id);
        let e = BuildView { table: named(d.table), ..d };
        lemma_children_same(c, children, root.id);
        lemma_tags_table(tag_model(e, root, column), children, column);
    }
}

/// Every table stands at the position that its identifier says and is found under
/// its name, and building the tables keeps that so.
pub proof fn law_building_keeps_numbering(
    s: SchemaView,
    models: Seq<Model>,
    db: Capability,
    n: nat,
)
    requires
        numbered(s),
        n <= s.tables.len(),
    ensures
        numbered(build_all(s, models, db, n)),
        build_all(s, models, db, n).tables.len() == s.tables.len(),
    decreases n,
{
    if n > 0 {
        law_building_keeps_numbering(s, models, db, (n - 1) as nat);
        let before = build_all(s, models, db, (n - 1) as nat);
        let after = build_all(s, models, db, n);
        let view = BuildView { table: before.tables[n - 1], mapping: before.mapping };
        let children = stored_in(models, view.mapping, view.table.id, false);
        let roots = stored_in(models, view.mapping, view.table.id, true);
        lemma_built_same(view, db, children.len() > 0, *roots[0], children);
        assert forall|i: int| 0 <= i < after.tables.len() implies (#[trigger] after.tables[i]).id.0
            == i && after.tables[i].name == before.tables[i].name by {
            assert(before.tables[i].id.0 == i);
        }
        assert forall|name: Seq<char>| #[trigger] after.lookup.contains_key(name) implies after.lookup[name].0
            < after.tables.len() && after.tables[after.lookup[name].0 as int].name == name by {
            assert(before.lookup.contains_key(name));
        }
    }
}

proof fn lemma_key_sources(
    fields: Seq<Field>,
    parents: Seq<ModelId>,
    foreign_key: Seq<ForeignKeyField>,
)
    ensures
        forall|i: int|
            0 <= i < key_sources(fields, parents, foreign_key).len() ==> is_key_link(
                fields,
                parents,
                #[trigger] key_sources(fields, parents, foreign_key)[i],
            ),
    decreases foreign_key.len(),
{
    if foreign_key.len() > 0 {
        let rest = key_sources(fields, parents, foreign_key.drop_last());
        let all = key_sources(fields, parents, foreign_key);
        lemma_key_sources(fields, parents, foreign_key.drop_last());
        assert forall|i: int| 0 <= i < all.len() implies is_key_link(
            fields,
            parents,
            #[trigger] all[i],
        ) by {
            if i < rest.len() {
                assert(is_key_link(fields, parents, rest[i]));
            }
        }
    }
}

proof fn lemma_key_links(fields: Seq<Field>, parents: Seq<ModelId>, relations: Seq<Field>)
    ensures
        forall|i: int|
            0 <= i < key_links(fields, parents, relations).len() ==> is_key_link(
                fields,
                parents,
                #[trigger] key_links(fields, parents, relations)[i],
            ),
    decreases relations.len(),
{
    if relations.len() > 0 {
        let rest = key_links(fields, parents, relations.drop_last());
        let all = key_links(fields, parents, relations);
        lemma_key_links(fields, parents, relations.drop_last());
        match relations.last().ty {
            FieldTy::BelongsTo(rel) => {
                let more = key_sources(fields, parents, rel.foreign_key@);
                lemma_key_sources(fields, parents, rel.foreign_key@);
                assert forall|i: int| 0 <= i < all.len() implies is_key_link(
                    fields,
                    parents,
                    #[trigger] all[i],
                ) by {
                    if i < rest.len() {
                        assert(is_key_link(fields, parents, rest[i]));
                    } else {
                        assert(is_key_link(fields, parents, more[i - rest.len()]));
                    }
                }
            },
            _ => {},
        }
    }
}

proof fn lemma_link_from(
    links: Seq<((usize, usize), (usize, usize))>,
    added: Seq<ForeignKeyField>,
    field: FieldId,
)
    requires
        value_at(link_all(links, added), field_key(field)) is Some,
        value_at(links, field_key(field)) is None,
    ensures
        exists|i: int|
            0 <= i < added.len() && (#[trigger] added[i]).source == field && value_at(
                link_all(links, added),
                field_key(field),
            ) == Some(field_key(added[i].target)),
    decreases added.len(),
{
    if added.len() > 0 {
        let rest = added.drop_last();
        let last = added[added.len() - 1];
        lemma_with_entry(
            link_all(links, rest),
            field_key(last.source),
            field_key(last.target),
            field_key(field),
        );
        if last.source == field {
            assert(added[added.len() - 1].source == field);
        } else {
            assert(field_key(last.source) != field_key(field));
            lemma_link_from(links, rest, field);
            let i = choose|i: int|
                0 <= i < rest.len() && (#[trigger] rest[i]).source == field && value_at(
                    link_all(links, rest),
                    field_key(field),
                ) == Some(field_key(rest[i].target));
            assert(added[i].source == field);
        }
    }
}

/// A field of a child that gets linked is part of the child's primary key, and is
/// linked to a field of one of the models above the child.
pub proof fn law_links_lead_to_parents(
    s: SchemaView,
    models: Seq<Model>,
    model: Model,
    field: FieldId,
)
    requires
        has_root(models, model),
        all_mapped(s.mapping, path_to(models, model)),
        !s.mapping[model.id].is_linked(field),
        populated(s, models, model).mapping[model.id].is_linked(field),
    ensures
        model.fields@[field.index as int].primary_key,
        parents_of(models, model).contains(
            populated(s, models, model).mapping[model.id].parent_field(field).model,
        ),
{
    let parents = parents_of(models, model);
    let added = key_links(model.fields@, parents, model.fields@);
    let links = s.mapping[model.id].links;
    lemma_key_links(model.fields@, parents, model.fields@);
    lemma_link_from(links, added, field);
    let i = choose|i: int|
        0 <= i < added.len() && (#[trigger] added[i]).source == field && value_at(
            link_all(links, added),
            field_key(field),
        ) == Some(field_key(added[i].target));
    assert(is_key_link(model.fields@, parents, added[i]));
}

} // verus!

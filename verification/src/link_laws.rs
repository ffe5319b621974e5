//! Which table each model is given, and what its key is linked to.

use crate::app::{self, Field, FieldId, FieldTy, ForeignKeyField, Model, ModelId};
use crate::build_schema::{
    Builder, SchemaView, depth, has_root, lemma_lineage, lineage, path_to, stub,
};
use crate::build_tables::stored_in;
use crate::collection_links::{
    CollectionError, all_mapped, has_key_field, key_check, key_links, key_sources, lemma_place_path,
    link_all, place_path, populated,
};
use crate::db::TableId;
use crate::index_laws::{has_link, lemma_has_link};
use crate::mapping::{ModelView, field_key, lemma_with_entry, value_at};
use vstd::prelude::*;

verus! {

/// The name that the model asks for its table, with the application's prefix before it.
pub open spec fn asked_name(builder: Builder, model: Model) -> Seq<char> {
    let prefix = match builder.table_name_prefix {
        Some(prefix) => prefix@,
        None => Seq::empty(),
    };
    prefix + match model.table_name {
        Some(name) => name@,
        None => model.name.plural@,
    }
}

/// A model that asks for a table by name, or is in no collection, gets the table of the name
/// that it asks for: the one that is there, or else a new one at the end, with that name and
/// nothing in it. A child of a collection that asks for no name gets none yet. Neither the
/// other tables nor the mappings change.
pub proof fn law_model_gets_the_table_it_asks_for(s: SchemaView, builder: Builder, model: Model)
    requires
        model.table_name is None && model.item_collection is None ==> !s.lookup.contains_key(
            asked_name(builder, model),
        ),
    ensures
        ({
            let (t, id) = stub(s, builder, model);
            let name = asked_name(builder, model);
            &&& t.mapping == s.mapping
            &&& s.tables.is_prefix_of(t.tables)
            &&& forall|other: Seq<char>|
                #![trigger t.lookup.contains_key(other)]
                #![trigger t.lookup[other]]
                other != name ==> t.lookup.contains_key(other) == s.lookup.contains_key(other)
                    && t.lookup[other] == s.lookup[other]
            &&& if model.table_name is None && model.item_collection is Some {
                t == s && id == TableId(usize::MAX)
            } else if s.lookup.contains_key(name) {
                t == s && id == s.lookup[name]
            } else {
                &&& t.tables.len() == s.tables.len() + 1
                &&& t.tables.last().name == name
                &&& t.tables.last().id == id
                &&& t.tables.last().columns.len() == 0
                &&& t.tables.last().indices.len() == 0
                &&& t.tables.last().key_columns.len() == 0
                &&& t.tables.last().key_index.table == id
                &&& t.tables.last().key_index.index == 0
                &&& id == TableId(s.lookup.len() as usize)
                &&& t.lookup.contains_key(name)
                &&& t.lookup[name] == id
            }
        }),
{
    let prefix = match builder.table_name_prefix {
        Some(prefix) => prefix@,
        None => Seq::empty(),
    };
    assert(Seq::<char>::empty() + model.name.plural@ =~= model.name.plural@);
    match model.table_name {
        Some(name) => {
            assert(Seq::<char>::empty() + name@ =~= name@);
        },
        None => {},
    }
}

/// Keeps a model if it is stored in the table and is in no collection, if `roots`, or else
/// in one.
pub open spec fn kept_in(
    mapping: Map<ModelId, ModelView>,
    table: TableId,
    roots: bool,
) -> spec_fn(Model) -> Option<Model> {
    |m: Model|
        if mapping[m.id].table == table && (m.item_collection is None <==> roots) {
            Some(m)
        } else {
            None
        }
}

/// The models of a table are all those whose mapping names the table, in the order of the
/// application, with those that are in no collection apart from the others.
pub proof fn law_tables_hold_their_models(
    models: Seq<Model>,
    mapping: Map<ModelId, ModelView>,
    table: TableId,
    roots: bool,
)
    ensures
        ({
            let all = models.filter_map(kept_in(mapping, table, roots));
            let found = stored_in(models, mapping, table, roots);
            &&& found.len() == all.len()
            &&& forall|k: int| 0 <= k < all.len() ==> *(#[trigger] found[k]) == all[k]
        }),
    decreases models.len(),
{
    if models.len() > 0 {
        let rest = models.drop_last();
        law_tables_hold_their_models(rest, mapping, table, roots);
        let all = models.filter_map(kept_in(mapping, table, roots));
        let before = rest.filter_map(kept_in(mapping, table, roots));
        let found = stored_in(models, mapping, table, roots);
        let earlier = stored_in(rest, mapping, table, roots);
        assert forall|k: int| 0 <= k < all.len() implies *(#[trigger] found[k]) == all[k] by {
            if k < before.len() {
                assert(found[k] == earlier[k]);
                assert(all[k] == before[k]);
            }
        }
    }
}

/// Whether the model is the one at place `i` of the path, and its parent the one before it.
pub open spec fn is_step(path: Seq<ModelId>, i: int, m: Model) -> bool {
    &&& m.id == path[i]
    &&& m.item_collection == (if i == 0 {
        None
    } else {
        Some(path[i - 1])
    })
}

/// Whether the model or one of the application's is that at place `i` of the path.
pub open spec fn has_step(models: Seq<Model>, model: Model, path: Seq<ModelId>, i: int) -> bool {
    exists|m: Model| (m == model || models.contains(m)) && #[trigger] is_step(path, i, m)
}

/// The path of a model starts at one that is in no collection and ends with the model, and
/// each model on it is in the collection of the one before it.
pub proof fn law_path_follows_parents(models: Seq<Model>, model: Model)
    requires
        has_root(models, model),
    ensures
        ({
            let path = path_to(models, model);
            &&& path.len() > 0
            &&& path.last() == model.id
            &&& forall|i: int| 0 <= i < path.len() ==> #[trigger] has_step(models, model, path, i)
        }),
    decreases depth(models, model),
{
    let path = path_to(models, model);
    let all = lineage(models, model);
    lemma_lineage(models, model);
    match model.item_collection {
        Some(parent) => {
            let above = app::find_model(models, parent);
            app::lemma_find_model(models, parent);
            law_path_follows_parents(models, above);
            let before = path_to(models, above);
            assert(path =~= before.push(model.id));
            assert(before.last() == parent);
            assert forall|i: int| 0 <= i < path.len() implies #[trigger] has_step(models, model, path, i) by {
                if i < before.len() {
                    assert(has_step(models, above, before, i));
                    let m = choose|m: Model|
                        (m == above || models.contains(m)) && #[trigger] is_step(before, i, m);
                    assert(is_step(path, i, m));
                } else {
                    assert(is_step(path, i, model));
                }
            }
        },
        None => {
            assert(path =~= seq![model.id]);
            assert(is_step(path, 0, model));
        },
    }
}

/// The fields of the foreign key of a relation to another model.
pub open spec fn foreign_key() -> spec_fn(Field) -> Seq<ForeignKeyField> {
    |f: Field|
        match f.ty {
            FieldTy::BelongsTo(rel) => rel.foreign_key@,
            _ => Seq::empty(),
        }
}

/// Keeps a field of a foreign key if it is part of the primary key and refers to a parent.
pub open spec fn to_parent(fields: Seq<Field>, parents: Seq<ModelId>) -> spec_fn(
    ForeignKeyField,
) -> Option<ForeignKeyField> {
    |fk: ForeignKeyField|
        if fields[fk.source.index as int].primary_key && parents.contains(fk.target.model) {
            Some(fk)
        } else {
            None
        }
}

/// The fields of all foreign keys of a model, in their order, that are part of its primary
/// key and refer to a parent.
pub open spec fn parent_keys(fields: Seq<Field>, parents: Seq<ModelId>) -> Seq<ForeignKeyField> {
    fields.map_values(foreign_key()).flatten_alt().filter_map(to_parent(fields, parents))
}

proof fn lemma_kept_of_sum(
    a: Seq<ForeignKeyField>,
    b: Seq<ForeignKeyField>,
    keep: spec_fn(ForeignKeyField) -> Option<ForeignKeyField>,
)
    ensures
        (a + b).filter_map(keep) == a.filter_map(keep) + b.filter_map(keep),
    decreases b.len(),
{
    if b.len() == 0 {
        assert(a + b =~= a);
        assert(a.filter_map(keep) + b.filter_map(keep) =~= a.filter_map(keep));
    } else {
        lemma_kept_of_sum(a, b.drop_last(), keep);
        assert((a + b).drop_last() =~= a + b.drop_last());
        assert((a + b).filter_map(keep) =~= a.filter_map(keep) + b.filter_map(keep));
    }
}

proof fn lemma_sources(
    fields: Seq<Field>,
    parents: Seq<ModelId>,
    foreign_key: Seq<ForeignKeyField>,
)
    ensures
        key_sources(fields, parents, foreign_key) == foreign_key.filter_map(
            to_parent(fields, parents),
        ),
    decreases foreign_key.len(),
{
    if foreign_key.len() > 0 {
        lemma_sources(fields, parents, foreign_key.drop_last());
    }
    assert(key_sources(fields, parents, foreign_key) =~= foreign_key.filter_map(
        to_parent(fields, parents),
    ));
}

proof fn lemma_parent_keys(fields: Seq<Field>, parents: Seq<ModelId>, relations: Seq<Field>)
    ensures
        key_links(fields, parents, relations) == relations.map_values(
            foreign_key(),
        ).flatten_alt().filter_map(to_parent(fields, parents)),
    decreases relations.len(),
{
    let all = relations.map_values(foreign_key());
    let keep = to_parent(fields, parents);
    if relations.len() > 0 {
        let rest = relations.drop_last();
        lemma_parent_keys(fields, parents, rest);
        assert(all.drop_last() =~= rest.map_values(foreign_key()));
        let last = foreign_key()(relations.last());
        lemma_kept_of_sum(all.drop_last().flatten_alt(), last, keep);
        lemma_sources(fields, parents, last);
        assert(all.flatten_alt() == all.drop_last().flatten_alt() + last);
        assert(key_links(fields, parents, relations) =~= all.flatten_alt().filter_map(keep));
    } else {
        assert(key_links(fields, parents, relations) =~= all.flatten_alt().filter_map(keep));
    }
}

/// Keeps a field of a foreign key if it starts at the given field.
pub open spec fn starting_at(field: FieldId) -> spec_fn(ForeignKeyField) -> Option<
    ForeignKeyField,
> {
    |fk: ForeignKeyField|
        if fk.source == field {
            Some(fk)
        } else {
            None
        }
}

proof fn lemma_linked_last(
    links: Seq<((usize, usize), (usize, usize))>,
    added: Seq<ForeignKeyField>,
    field: FieldId,
)
    ensures
        ({
            let own = added.filter_map(starting_at(field));
            value_at(link_all(links, added), (field.model.0, field.index)) == (if own.len() > 0 {
                Some((own.last().target.model.0, own.last().target.index))
            } else {
                value_at(links, (field.model.0, field.index))
            })
        }),
    decreases added.len(),
{
    if added.len() > 0 {
        let rest = added.drop_last();
        let last = added.last();
        lemma_linked_last(links, rest, field);
        lemma_with_entry(
            link_all(links, rest),
            field_key(last.source),
            field_key(last.target),
            field_key(field),
        );
        if field_key(last.source) == field_key(field) {
            assert(last.source == field);
        }
    }
}

/// Once a child is linked, each of its fields that is part of its primary key and of a
/// foreign key to a parent is linked to the parent's field that the key refers to. With
/// several such keys for one field the last counts. No other field gets a link, and links
/// that were there stay.
pub proof fn law_key_fields_are_linked(
    s: SchemaView,
    models: Seq<Model>,
    model: Model,
    field: FieldId,
)
    ensures
        ({
            let t = populated(s, models, model);
            let own = parent_keys(
                model.fields@,
                path_to(models, model).drop_last(),
            ).filter_map(starting_at(field));
            value_at(t.mapping[model.id].links, (field.model.0, field.index)) == (if own.len() > 0 {
                Some((own.last().target.model.0, own.last().target.index))
            } else {
                value_at(s.mapping[model.id].links, (field.model.0, field.index))
            })
        }),
{
    let parents = path_to(models, model).drop_last();
    lemma_parent_keys(model.fields@, parents, model.fields@);
    lemma_linked_last(
        s.mapping[model.id].links,
        key_links(model.fields@, parents, model.fields@),
        field,
    );
}

/// Linking a child changes nothing but the tables and paths of the models on its path, and
/// the child's links.
pub proof fn law_linking_changes_the_path_alone(
    s: SchemaView,
    models: Seq<Model>,
    model: Model,
    m: ModelId,
)
    requires
        has_root(models, model),
        all_mapped(s.mapping, path_to(models, model)),
    ensures
        ({
            let t = populated(s, models, model);
            let before = s.mapping[m];
            let after = t.mapping[m];
            &&& t.tables == s.tables
            &&& t.lookup == s.lookup
            &&& t.mapping.dom() == s.mapping.dom()
            &&& !path_to(models, model).contains(m) ==> after == before
            &&& after == ModelView {
                table: after.table,
                path: after.path,
                links: after.links,
                ..before
            }
            &&& m != model.id ==> after.links == before.links
            &&& before.path.len() > 0 ==> after.path == before.path
        }),
{
    let path = path_to(models, model);
    let table = s.mapping[crate::build_schema::root_of(models, model).id].table;
    crate::collection_links::lemma_path_ends(models, model);
    lemma_place_path(s.mapping, table, path, path.len());
    assert(path.take(path.len() as int) =~= path);
    let placed = place_path(s.mapping, table, path, path.len());
    let t = populated(s, models, model);
    assert(placed[m] == placed[m]);
    assert(placed[model.id] == placed[model.id]);
    assert(path.contains(model.id));
    assert(s.mapping.contains_key(path[path.len() - 1]));
    assert(t.mapping.dom() =~= s.mapping.dom());
}

/// A child's primary key is refused if none of its fields is linked to a parent's, and also
/// if all of them are. In any other case it is accepted.
pub proof fn law_key_needs_parent_and_own_field(
    links: Seq<((usize, usize), (usize, usize))>,
    model: Model,
)
    ensures
        ({
            let linked = exists|i: int|
                0 <= i < model.fields@.len() && (#[trigger] model.fields@[i]).primary_key && has_link(
                    links,
                    model.fields@[i].id,
                );
            let own = exists|i: int|
                0 <= i < model.fields@.len() && (#[trigger] model.fields@[i]).primary_key
                    && !has_link(links, model.fields@[i].id);
            &&& key_check(links, model) is Ok <==> linked && own
            &&& key_check(links, model) == Err::<(), CollectionError>(
                CollectionError::MissingParent(model.id),
            ) <==> !linked
            &&& key_check(links, model) == Err::<(), CollectionError>(
                CollectionError::MissingPrimitive(model.id),
            ) <==> linked && !own
        }),
{
    let fields = model.fields@;
    assert forall|i: int| 0 <= i < fields.len() implies has_link(
        links,
        (#[trigger] fields[i]).id,
    ) == value_at(links, field_key(fields[i].id)) is Some by {
        lemma_has_link(links, fields[i].id);
    }
    assert(has_key_field(links, fields, true) <==> exists|i: int|
        0 <= i < fields.len() && (#[trigger] fields[i]).primary_key && has_link(
            links,
            fields[i].id,
        ));
    assert(has_key_field(links, fields, false) <==> exists|i: int|
        0 <= i < fields.len() && (#[trigger] fields[i]).primary_key && !has_link(
            links,
            fields[i].id,
        ));
}

} // verus!

//! Links the models of an item collection to the table of their root.

use crate::app::{self, Field, FieldId, FieldTy, ForeignKeyField, Model, ModelId};
use crate::build_schema::{BuildSchema, SchemaView, has_root, lemma_lineage, path_to, root_of};
use crate::db::TableId;
use crate::mapping::{
    ModelView, field_key, index_map_entries, lemma_with_entry, value_at, with_entry,
};
use vstd::prelude::*;

verus! {

/// Why a model cannot be part of an item collection.
#[derive(Clone, Copy, PartialEq, Eq, Structural, Debug)]
pub enum CollectionError {
    /// No field of the model's primary key refers to a parent
    MissingParent(ModelId),
    /// Every field of the model's primary key refers to a parent, so that nothing
    /// tells the model's rows apart
    MissingPrimitive(ModelId),
}

/// Whether a field of a foreign key is part of the primary key and refers to one of
/// the parents.
pub open spec fn is_key_link(fields: Seq<Field>, parents: Seq<ModelId>, fk: ForeignKeyField) -> bool {
    fields[fk.source.index as int].primary_key && parents.contains(fk.target.model)
}

/// The foreign key fields that are part of the primary key and refer to a parent.
pub open spec fn key_sources(
    fields: Seq<Field>,
    parents: Seq<ModelId>,
    foreign_key: Seq<ForeignKeyField>,
) -> Seq<ForeignKeyField>
    decreases foreign_key.len(),
{
    if foreign_key.len() == 0 {
        Seq::empty()
    } else {
        let rest = key_sources(fields, parents, foreign_key.drop_last());
        if is_key_link(fields, parents, foreign_key.last()) {
            rest.push(foreign_key.last())
        } else {
            rest
        }
    }
}

/// The foreign key fields of all relations that are part of the primary key and
/// refer to a parent.
pub open spec fn key_links(
    fields: Seq<Field>,
    parents: Seq<ModelId>,
    relations: Seq<Field>,
) -> Seq<ForeignKeyField>
    decreases relations.len(),
{
    if relations.len() == 0 {
        Seq::empty()
    } else {
        let rest = key_links(fields, parents, relations.drop_last());
        match relations.last().ty {
            FieldTy::BelongsTo(rel) => rest + key_sources(fields, parents, rel.foreign_key@),
            _ => rest,
        }
    }
}

/// The links with those of the foreign key fields added.
pub open spec fn link_all(
    links: Seq<((usize, usize), (usize, usize))>,
    added: Seq<ForeignKeyField>,
) -> Seq<((usize, usize), (usize, usize))>
    decreases added.len(),
{
    if added.len() == 0 {
        links
    } else {
        with_entry(
            link_all(links, added.drop_last()),
            field_key(added.last().source),
            field_key(added.last().target),
        )
    }
}

/// The links of a model once its relations have been scanned.
pub open spec fn model_links(
    links: Seq<((usize, usize), (usize, usize))>,
    parents: Seq<ModelId>,
    model: Model,
) -> Seq<((usize, usize), (usize, usize))> {
    link_all(links, key_links(model.fields@, parents, model.fields@))
}

/// The models above a model, from its root on.
pub open spec fn parents_of(models: Seq<Model>, model: Model) -> Seq<ModelId> {
    path_to(models, model).drop_last()
}

/// The mappings once the first `n` models of the path know their table and their
/// own part of the path.
pub open spec fn place_path(
    mapping: Map<ModelId, ModelView>,
    table: TableId,
    path: Seq<ModelId>,
    n: nat,
) -> Map<ModelId, ModelView>
    decreases n,
{
    if n == 0 {
        mapping
    } else {
        let before = place_path(mapping, table, path, (n - 1) as nat);
        let id = path[n - 1];
        let model = before[id];
        before.insert(
            id,
            ModelView {
                table,
                path: if model.path.len() == 0 {
                    path.take(n as int)
                } else {
                    model.path
                },
                ..model
            },
        )
    }
}

/// The schema once a child knows its table, its path and its links.
pub open spec fn populated(s: SchemaView, models: Seq<Model>, model: Model) -> SchemaView {
    let path = path_to(models, model);
    let table = s.mapping[root_of(models, model).id].table;
    let mapping = place_path(s.mapping, table, path, path.len());
    let links = model_links(s.mapping[model.id].links, parents_of(models, model), model);
    SchemaView { mapping: mapping.insert(model.id, ModelView { links, ..mapping[model.id] }), ..s }
}

/// Whether some field of the primary key is linked to a parent's field, if
/// `linked`, or else whether some is not.
pub open spec fn has_key_field(
    links: Seq<((usize, usize), (usize, usize))>,
    fields: Seq<Field>,
    linked: bool,
) -> bool {
    exists|i: int|
        0 <= i < fields.len() && (#[trigger] fields[i]).primary_key && value_at(
            links,
            field_key(fields[i].id),
        ) is Some == linked
}

/// Whether the model's primary key is made of fields of parents and of its own.
pub open spec fn key_check(
    links: Seq<((usize, usize), (usize, usize))>,
    model: Model,
) -> Result<(), CollectionError> {
    if !has_key_field(links, model.fields@, true) {
        Err(CollectionError::MissingParent(model.id))
    } else if !has_key_field(links, model.fields@, false) {
        Err(CollectionError::MissingPrimitive(model.id))
    } else {
        Ok(())
    }
}

/// Whether every foreign key field starts at a field of the model.
pub open spec fn sources_known(model: Model) -> bool {
    forall|i: int|
        0 <= i < model.fields@.len() ==> ((#[trigger] model.fields@[i]).ty matches
            FieldTy::BelongsTo(rel) ==> keys_known(model, rel.foreign_key@))
}

/// Whether every field of the foreign key starts at a field of the model.
pub open spec fn keys_known(model: Model, foreign_key: Seq<ForeignKeyField>) -> bool {
    forall|i: int|
        0 <= i < foreign_key.len() ==> (#[trigger] foreign_key[i]).source.index
            < model.fields@.len()
}

/// Whether every model of the path has a mapping.
pub open spec fn all_mapped(mapping: Map<ModelId, ModelView>, path: Seq<ModelId>) -> bool {
    forall|i: int| 0 <= i < path.len() ==> mapping.contains_key(#[trigger] path[i])
}

/// Whether one of the foreign key fields starts at the given field.
pub open spec fn is_source(added: Seq<ForeignKeyField>, field: FieldId) -> bool {
    exists|i: int| 0 <= i < added.len() && (#[trigger] added[i]).source == field
}

proof fn lemma_link_all(
    links: Seq<((usize, usize), (usize, usize))>,
    added: Seq<ForeignKeyField>,
    field: FieldId,
)
    ensures
        value_at(link_all(links, added), field_key(field)) is Some == (value_at(
            links,
            field_key(field),
        ) is Some || is_source(added, field)),
    decreases added.len(),
{
    if added.len() > 0 {
        let rest = added.drop_last();
        lemma_link_all(links, rest, field);
        lemma_with_entry(
            link_all(links, rest),
            field_key(added.last().source),
            field_key(added.last().target),
            field_key(field),
        );
        if is_source(rest, field) {
            let i = choose|i: int| 0 <= i < rest.len() && (#[trigger] rest[i]).source == field;
            assert(added[i].source == field);
        }
        if is_source(added, field) && added.last().source != field {
            let i = choose|i: int| 0 <= i < added.len() && (#[trigger] added[i]).source == field;
            assert(rest[i].source == field);
        }
        if added.last().source == field {
            assert(added[added.len() - 1].source == field);
        }
    }
}

pub proof fn lemma_place_path(
    mapping: Map<ModelId, ModelView>,
    table: TableId,
    path: Seq<ModelId>,
    n: nat,
)
    requires
        n <= path.len(),
        all_mapped(mapping, path),
    ensures
        place_path(mapping, table, path, n).dom() == mapping.dom(),
        forall|m: ModelId|
            #![trigger place_path(mapping, table, path, n)[m]]
            {
                let before = mapping[m];
                let after = place_path(mapping, table, path, n)[m];
                &&& after == ModelView { table: after.table, path: after.path, ..before }
                &&& before.path.len() > 0 ==> after.path == before.path
                &&& path.take(n as int).contains(m) ==> after.table == table
                &&& !path.take(n as int).contains(m) ==> after == before
                &&& before.path.len() == 0 && after.path.len() > 0 ==> after.path.last() == m
                &&& path.take(n as int).contains(m) ==> after.path.len() > 0
            },
    decreases n,
{
    if n > 0 {
        let k = (n - 1) as nat;
        lemma_place_path(mapping, table, path, k);
        let before = place_path(mapping, table, path, k);
        let after = place_path(mapping, table, path, n);
        let id = path[n - 1];
        assert(mapping.contains_key(path[n - 1]));
        assert(after.dom() =~= mapping.dom());
        assert(path.take(n as int) =~= path.take(k as int).push(id));
        assert forall|m: ModelId| #[trigger] path.take(n as int).contains(m) == (path.take(
            k as int,
        ).contains(m) || m == id) by {
            if path.take(k as int).contains(m) {
                let i = path.take(k as int).index_of(m);
                assert(path.take(n as int)[i] == m);
            }
            if m == id {
                assert(path.take(n as int)[n - 1] == m);
            }
            if path.take(n as int).contains(m) && m != id {
                let i = path.take(n as int).index_of(m);
                assert(path.take(k as int)[i] == m);
            }
        }
        assert(path.take(n as int).last() == id);
        assert forall|m: ModelId|
            #![trigger after[m]]
            {
                let first = mapping[m];
                let last = after[m];
                &&& last == ModelView { table: last.table, path: last.path, ..first }
                &&& first.path.len() > 0 ==> last.path == first.path
                &&& path.take(n as int).contains(m) ==> last.table == table
                &&& !path.take(n as int).contains(m) ==> last == first
                &&& first.path.len() == 0 && last.path.len() > 0 ==> last.path.last() == m
                &&& path.take(n as int).contains(m) ==> last.path.len() > 0
            } by {
            let middle = before[m];
            assert(path.take(n as int).contains(m) == (path.take(k as int).contains(m) || m == id));
            if m != id {
                assert(after[m] == before[m]);
            }
        }
    } else {
        assert(path.take(0) =~= Seq::<ModelId>::empty());
    }
}

/// Whether the model is one of the parents: the models of the path but the last.
fn is_parent(path: &Vec<ModelId>, id: ModelId) -> (r: bool)
    requires
        path@.len() > 0,
    ensures
        r == path@.drop_last().contains(id),
{
    let n: usize = path.len() - 1;
    let mut i: usize = 0;
    while i < n
        invariant
            i <= n,
            n == path@.len() - 1,
            forall|k: int| 0 <= k < i ==> path@[k] != id,
        decreases n - i,
    {
        if path[i] == id {
            assert(path@.drop_last()[i as int] == id);
            return true;
        }
        i = i + 1;
    }
    false
}

/// The foreign key fields of all relations that are part of the primary key and
/// refer to a parent.
fn collect_links(model: &Model, path: &Vec<ModelId>) -> (r: Vec<ForeignKeyField>)
    requires
        sources_known(*model),
        path@.len() > 0,
    ensures
        r@ == key_links(model.fields@, path@.drop_last(), model.fields@),
{
    let ghost parents = path@.drop_last();
    let ghost fields = model.fields@;
    let mut links: Vec<ForeignKeyField> = Vec::new();
    let mut i: usize = 0;
    assert(fields.take(0) =~= Seq::<Field>::empty());
    while i < model.fields.len()
        invariant
            i <= fields.len(),
            fields == model.fields@,
            sources_known(*model),
            path@.len() > 0,
            parents == path@.drop_last(),
            links@ == key_links(fields, parents, fields.take(i as int)),
        decreases fields.len() - i,
    {
        assert(fields.take(i + 1).drop_last() =~= fields.take(i as int));
        match &model.fields[i].ty {
            FieldTy::BelongsTo(rel) => {
                let ghost foreign_key = rel.foreign_key@;
                let ghost start = links@;
                assert(model.fields@[i as int].ty matches FieldTy::BelongsTo(_));
                assert(keys_known(*model, foreign_key));
                let mut j: usize = 0;
                assert(start + key_sources(fields, parents, foreign_key.take(0)) =~= start);
                while j < rel.foreign_key.len()
                    invariant
                        j <= foreign_key.len(),
                        foreign_key == rel.foreign_key@,
                        fields == model.fields@,
                        keys_known(*model, foreign_key),
                        path@.len() > 0,
                        parents == path@.drop_last(),
                        links@ == start + key_sources(
                            fields,
                            parents,
                            foreign_key.take(j as int),
                        ),
                    decreases foreign_key.len() - j,
                {
                    let fk = rel.foreign_key[j];
                    assert(foreign_key[j as int].source.index < fields.len());
                    if model.fields[fk.source.index].primary_key && is_parent(path, fk.target.model) {
                        links.push(fk);
                    }
                    proof {
                        assert(foreign_key.take(j + 1).drop_last() =~= foreign_key.take(j as int));
                        assert(links@ =~= start + key_sources(
                            fields,
                            parents,
                            foreign_key.take(j + 1),
                        ));
                    }
                    j = j + 1;
                }
                assert(foreign_key.take(j as int) =~= foreign_key);
            },
            _ => {},
        }
        i = i + 1;
    }
    assert(fields.take(i as int) =~= fields);
    links
}

/// Whether one of the foreign key fields starts at the given field.
fn starts_at(links: &Vec<ForeignKeyField>, field: FieldId) -> (r: bool)
    ensures
        r == is_source(links@, field),
{
    let mut i: usize = 0;
    while i < links.len()
        invariant
            i <= links@.len(),
            forall|k: int| 0 <= k < i ==> (#[trigger] links@[k]).source != field,
        decreases links@.len() - i,
    {
        if links[i].source == field {
            return true;
        }
        i = i + 1;
    }
    false
}

impl<'a> BuildSchema<'a> {
    /// Whether the model's primary key is made of fields of parents and of its own.
    fn check_key(&self, model: &Model, links: &Vec<ForeignKeyField>) -> (r: Result<
        (),
        CollectionError,
    >)
        requires
            self.state().mapping.contains_key(model.id),
        ensures
            r == key_check(link_all(self.state().mapping[model.id].links, links@), *model),
    {
        let item_collection = &self.mapping.model(model.id).item_collection;
        let ghost old_links = self.mapping@[model.id].links;
        let ghost new_links = link_all(old_links, links@);
        let mut has_linked = false;
        let mut has_own = false;
        let mut i: usize = 0;
        while i < model.fields.len()
            invariant
                i <= model.fields@.len(),
                old_links == index_map_entries(item_collection.field_mapping),
                new_links == link_all(old_links, links@),
                has_linked == has_key_field(new_links, model.fields@.take(i as int), true),
                has_own == has_key_field(new_links, model.fields@.take(i as int), false),
            decreases model.fields@.len() - i,
        {
            let field = &model.fields[i];
            let ghost done = model.fields@.take(i as int);
            let ghost more = model.fields@.take(i + 1);
            proof {
                lemma_link_all(old_links, links@, field.id);
                assert forall|linked: bool| #[trigger] has_key_field(new_links, more, linked) == (
                has_key_field(new_links, done, linked) || (field.primary_key
                    && value_at(new_links, field_key(field.id)) is Some == linked)) by {
                    if has_key_field(new_links, done, linked) {
                        let k = choose|k: int|
                            0 <= k < done.len() && (#[trigger] done[k]).primary_key
                                && value_at(new_links, field_key(done[k].id)) is Some == linked;
                        assert(more[k] == done[k]);
                    }
                    if has_key_field(new_links, more, linked) {
                        let k = choose|k: int|
                            0 <= k < more.len() && (#[trigger] more[k]).primary_key
                                && value_at(new_links, field_key(more[k].id)) is Some == linked;
                        if k < done.len() {
                            assert(done[k] == more[k]);
                        }
                    }
                    assert(more[i as int] == *field);
                }
                assert(has_key_field(new_links, more, true) == has_key_field(new_links, more, true));
                assert(has_key_field(new_links, more, false) == has_key_field(
                    new_links,
                    more,
                    false,
                ));
            }
            if field.primary_key {
                if item_collection.is_linked(field.id) || starts_at(links, field.id) {
                    has_linked = true;
                } else {
                    has_own = true;
                }
            }
            i = i + 1;
        }
        assert(model.fields@.take(i as int) =~= model.fields@);
        if !has_linked {
            Err(CollectionError::MissingParent(model.id))
        } else if !has_own {
            Err(CollectionError::MissingPrimitive(model.id))
        } else {
            Ok(())
        }
    }

    /// Lets a child of an item collection, and the models above it, know their
    /// table and path, and links the child's key fields to those of its parents.
    pub fn populate_item_collection_mapping(&mut self, app: &app::Schema, model: &Model) -> (r:
        Result<(), CollectionError>)
        requires
            model.item_collection is Some ==> {
                &&& has_root(app.models@, *model)
                &&& all_mapped(old(self).state().mapping, path_to(app.models@, *model))
                &&& sources_known(*model)
            },
        ensures
            ({
                let s = old(self).state();
                if model.item_collection is None {
                    r is Ok && final(self).state() == s
                } else {
                    let links = model_links(
                        s.mapping[model.id].links,
                        parents_of(app.models@, *model),
                        *model,
                    );
                    &&& r == key_check(links, *model)
                    &&& final(self).state() == (if r is Ok {
                        populated(s, app.models@, *model)
                    } else {
                        s
                    })
                }
            }),
            final(self).tables == old(self).tables,
            final(self).builder == old(self).builder,
    {
        if model.item_collection.is_none() {
            return Ok(());
        }
        let ghost s = self.state();
        let ghost models = app.models@;
        proof {
            lemma_path_ends(models, *model);
        }
        let (table, path) = self.find_item_collection_path(app, model);
        let links = collect_links(model, &path);
        match self.check_key(model, &links) {
            Ok(()) => {},
            Err(error) => {
                return Err(error);
            },
        }

        // ensure all paths up to the root are populated
        let mut idx: usize = 0;
        while idx < path.len()
            invariant
                idx <= path@.len(),
                path@ == path_to(models, *model),
                all_mapped(s.mapping, path@),
                self.state() == (SchemaView {
                    mapping: place_path(s.mapping, table, path@, idx as nat),
                    ..s
                }),
                self.tables == old(self).tables,
                self.builder == old(self).builder,
            decreases path@.len() - idx,
        {
            proof {
                lemma_place_path(s.mapping, table, path@, idx as nat);
                assert(s.mapping.contains_key(path@[idx as int]));
            }
            let part = take_path(&path, idx + 1);
            let source_model = self.mapping.model_mut(path[idx]);
            source_model.table = table;
            if source_model.item_collection.path.len() == 0 {
                source_model.item_collection.path = part;
            }
            idx = idx + 1;
        }
        proof {
            lemma_place_path(s.mapping, table, path@, path@.len());
        }
        let ghost placed = self.state();

        // scan relations to map PK fields from parents to FK fields in this model
        let ghost old_links = s.mapping[model.id].links;
        let mut i: usize = 0;
        assert(placed.mapping.insert(
            model.id,
            ModelView { links: link_all(old_links, links@.take(0)), ..placed.mapping[model.id] },
        ) =~= placed.mapping);
        while i < links.len()
            invariant
                i <= links@.len(),
                placed.mapping.contains_key(model.id),
                self.state() == (SchemaView {
                    mapping: placed.mapping.insert(
                        model.id,
                        ModelView {
                            links: link_all(old_links, links@.take(i as int)),
                            ..placed.mapping[model.id]
                        },
                    ),
                    ..placed
                }),
                self.tables == old(self).tables,
                self.builder == old(self).builder,
            decreases links@.len() - i,
        {
            let fk = links[i];
            let ghost before = self.state();
            assert(links@.take(i + 1).drop_last() =~= links@.take(i as int));
            let source_model = self.mapping.model_mut(model.id);
            source_model.item_collection.link(fk.source, fk.target);
            proof {
                assert(self.state().mapping =~= placed.mapping.insert(
                    model.id,
                    ModelView {
                        links: link_all(old_links, links@.take(i + 1)),
                        ..placed.mapping[model.id]
                    },
                ));
            }
            i = i + 1;
        }
        assert(links@.take(i as int) =~= links@);
        Ok(())
    }
}

/// A child's path is not empty and ends with the child.
pub proof fn lemma_path_ends(models: Seq<Model>, model: Model)
    requires
        has_root(models, model),
    ensures
        path_to(models, model).len() > 0,
        path_to(models, model).last() == model.id,
        path_to(models, model)[0] == root_of(models, model).id,
{
    lemma_lineage(models, model);
}

/// The first `n` models of a path.
fn take_path(path: &Vec<ModelId>, n: usize) -> (r: Vec<ModelId>)
    requires
        n <= path@.len(),
    ensures
        r@ == path@.take(n as int),
{
    let mut r: Vec<ModelId> = Vec::new();
    let mut i: usize = 0;
    while i < n
        invariant
            i <= n <= path@.len(),
            r@ == path@.take(i as int),
        decreases n - i,
    {
        r.push(path[i]);
        assert(path@.take(i + 1) =~= path@.take(i as int).push(path@[i as int]));
        i = i + 1;
    }
    r
}

} // verus!

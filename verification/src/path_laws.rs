//! What holds of paths once all children are linked to their collections.

use crate::app::{self, Model, ModelId};
use crate::build_collection::child_fits;
use crate::build_schema::{
    SchemaView, has_root, lemma_lineage, lemma_path_distinct, lineage, numbered, path_to, root_of,
};
use crate::build_table::{BuildView, Capability};
use crate::build_tables::{
    build_all, build_one, lemma_stored_in, lemma_table_ready, one_ready, schema_ready, stored_in,
};
use crate::built_laws::{
    built_up_to, columns_counted, is_member, law_all_tables_are_complete, lemma_members,
    models_differ, tables_numbered,
};
use crate::collection_links::{
    all_mapped, lemma_path_ends, lemma_place_path, place_path, populated,
};
use crate::db::TableId;
use crate::mapping::ModelView;
use crate::name_laws::{law_model_column_needs_path, names_need_paths};
use crate::schema_laws::law_building_keeps_numbering;
use vstd::prelude::*;

verus! {

/// The schema once the given models have been linked to their collections, one after
/// the other. Models that are in no collection change nothing.
pub open spec fn linked_all(s: SchemaView, models: Seq<Model>, called: Seq<Model>) -> SchemaView
    decreases called.len(),
{
    if called.len() == 0 {
        s
    } else {
        let before = linked_all(s, models, called.drop_last());
        if called.last().item_collection is Some {
            populated(before, models, called.last())
        } else {
            before
        }
    }
}

/// Whether the models can be linked to their collections: they are models of the
/// application, their parents lead to a root, and all of these have a mapping.
pub open spec fn can_link(s: SchemaView, models: Seq<Model>, called: Seq<Model>) -> bool {
    forall|k: int|
        0 <= k < called.len() ==> {
            &&& models.contains(#[trigger] called[k])
            &&& called[k].item_collection is Some ==> has_root(models, called[k]) && all_mapped(
                s.mapping,
                path_to(models, called[k]),
            )
        }
}

/// Whether every child of the application is among the given models.
pub open spec fn all_called(models: Seq<Model>, called: Seq<Model>) -> bool {
    forall|i: int|
        0 <= i < models.len() && (#[trigger] models[i]).item_collection is Some ==> called.contains(
            models[i],
        )
}

/// A model of the list is found under its identifier.
proof fn lemma_find_member(models: Seq<Model>, model: Model)
    requires
        models_differ(models),
        models.contains(model),
    ensures
        app::find_model(models, model.id) == model,
        app::has_model(models, model.id),
    decreases models.len(),
{
    let i = models.index_of(model);
    assert(models[i].id == model.id);
    if i == 0 {
    } else {
        assert(models[0].id != models[i].id);
        let rest = models.skip(1);
        assert forall|a: int, b: int| 0 <= a < b < rest.len() implies (#[trigger] rest[a]).id != (
        #[trigger] rest[b]).id by {
            assert(rest[a] == models[a + 1] && rest[b] == models[b + 1]);
        }
        assert(rest[i - 1] == model);
        lemma_find_member(rest, model);
    }
}

/// The model that is found is one of the list.
proof fn lemma_found_member(models: Seq<Model>, id: ModelId)
    requires
        app::has_model(models, id),
    ensures
        models.contains(app::find_model(models, id)),
    decreases models.len(),
{
    let i = choose|i: int| 0 <= i < models.len() && (#[trigger] models[i]).id == id;
    if models[0].id == id {
        assert(models.contains(models[0]));
    } else {
        let rest = models.skip(1);
        assert(rest[i - 1].id == id);
        lemma_found_member(rest, id);
        let k = rest.index_of(app::find_model(rest, id));
        assert(models[k + 1] == rest[k]);
    }
}

/// The models between a model and its root are models of the list, of which the root
/// alone is in no collection, and their own lineage is the rest of the model's.
proof fn lemma_lineage_members(models: Seq<Model>, model: Model, i: int)
    requires
        models.contains(model),
        has_root(models, model),
        0 <= i < lineage(models, model).len(),
    ensures
        ({
            let all = lineage(models, model);
            &&& models.contains(all[i])
            &&& all[i].item_collection is None <==> i == all.len() - 1
            &&& has_root(models, all[i])
            &&& lineage(models, all[i]) == all.skip(i)
        }),
    decreases i,
{
    let all = lineage(models, model);
    lemma_lineage(models, model);
    if i == 0 {
        assert(all.skip(0) =~= all);
    } else {
        let parent = model.item_collection->0;
        let above = app::find_model(models, parent);
        lemma_found_member(models, parent);
        lemma_lineage(models, above);
        assert(all[i] == lineage(models, above)[i - 1]);
        lemma_lineage_members(models, above, i - 1);
        assert(lineage(models, above).skip(i - 1) =~= all.skip(i));
    }
}

/// The models of a path, from the root on: each is a model of the list, its own path is
/// the beginning of the path, and its root is the same.
proof fn lemma_path_members(models: Seq<Model>, model: Model, j: int)
    requires
        models.contains(model),
        has_root(models, model),
        0 <= j < path_to(models, model).len(),
    ensures
        ({
            let path = path_to(models, model);
            let m = lineage(models, model)[path.len() - 1 - j];
            &&& m.id == path[j]
            &&& models.contains(m)
            &&& has_root(models, m)
            &&& path_to(models, m) == path.take(j + 1)
            &&& root_of(models, m) == root_of(models, model)
            &&& m.item_collection is None <==> j == 0
        }),
{
    let all = lineage(models, model);
    let path = path_to(models, model);
    let i = path.len() - 1 - j;
    lemma_lineage_members(models, model, i);
    assert(path_to(models, all[i]) =~= path.take(j + 1));
}

/// The root of a model is a model of the list that is in no collection.
proof fn lemma_root_member(models: Seq<Model>, model: Model)
    requires
        models.contains(model),
        has_root(models, model),
    ensures
        models.contains(root_of(models, model)),
        root_of(models, model).item_collection is None,
        path_to(models, model).len() > 0,
        path_to(models, model)[0] == root_of(models, model).id,
{
    lemma_lineage(models, model);
    lemma_path_ends(models, model);
    lemma_lineage_members(models, model, lineage(models, model).len() - 1);
}

/// The path of a model of the list, if it is among the first `n` that get one and had
/// none before.
proof fn lemma_place_exact(
    mapping: Map<ModelId, ModelView>,
    table: TableId,
    path: Seq<ModelId>,
    n: nat,
    j: int,
)
    requires
        n <= path.len(),
        path.no_duplicates(),
        0 <= j < path.len(),
    ensures
        place_path(mapping, table, path, n)[path[j]].path == (if j < n
            && mapping[path[j]].path.len() == 0 {
            path.take(j + 1)
        } else {
            mapping[path[j]].path
        }),
    decreases n,
{
    if n > 0 {
        lemma_place_exact(mapping, table, path, (n - 1) as nat, j);
        if j != n - 1 {
            assert(path[j] != path[n - 1]);
        }
    }
}

/// Whether the model's mapping has no path, or the one that leads from its root to it.
pub open spec fn path_fits(s: SchemaView, models: Seq<Model>, model: Model) -> bool {
    let path = s.mapping[model.id].path;
    path.len() == 0 || (has_root(models, model) && path == path_to(models, model))
}

/// Whether the model is linked to its collection: it is stored in the table of its
/// root, and both have a path.
pub open spec fn is_linked_in(s: SchemaView, models: Seq<Model>, model: Model) -> bool {
    let root = root_of(models, model);
    &&& s.mapping[model.id].path.len() > 0
    &&& s.mapping[root.id].path.len() > 0
    &&& s.mapping[model.id].table == s.mapping[root.id].table
}

/// What linking one child does to any model of the list.
proof fn lemma_link_one(s: SchemaView, models: Seq<Model>, child: Model, m: Model)
    requires
        models_differ(models),
        models.contains(child),
        models.contains(m),
        child.item_collection is Some,
        has_root(models, child),
        all_mapped(s.mapping, path_to(models, child)),
    ensures
        ({
            let t = populated(s, models, child);
            let path = path_to(models, child);
            &&& s.mapping[m.id].path.len() > 0 ==> t.mapping[m.id].path == s.mapping[m.id].path
            &&& path.contains(m.id) ==> t.mapping[m.id].path.len() > 0 && t.mapping[m.id].table
                == s.mapping[root_of(models, child).id].table && has_root(models, m) && root_of(
                models,
                m,
            ) == root_of(models, child)
            &&& !path.contains(m.id) ==> t.mapping[m.id] == s.mapping[m.id]
            &&& m.item_collection is None ==> t.mapping[m.id].table == s.mapping[m.id].table
            &&& path_fits(s, models, m) ==> path_fits(t, models, m)
        }),
{
    let t = populated(s, models, child);
    let path = path_to(models, child);
    let table = s.mapping[root_of(models, child).id].table;
    let placed = place_path(s.mapping, table, path, path.len());
    lemma_place_path(s.mapping, table, path, path.len());
    assert(path.take(path.len() as int) =~= path);
    lemma_path_ends(models, child);
    lemma_find_member(models, child);
    lemma_path_distinct(models, child);
    assert(placed[m.id].table == t.mapping[m.id].table);
    assert(placed[m.id].path == t.mapping[m.id].path);
    if path.contains(m.id) {
        let j = path.index_of(m.id);
        lemma_path_members(models, child, j);
        let found = lineage(models, child)[path.len() - 1 - j];
        lemma_find_member(models, found);
        lemma_find_member(models, m);
        assert(found == m);
        lemma_place_exact(s.mapping, table, path, path.len(), j);
        lemma_root_member(models, child);
        if m.item_collection is None {
            assert(j == 0);
        }
    } else {
        assert(path.contains(path.last()));
        assert(m.id != child.id);
    }
}

/// What linking keeps of all mappings.
proof fn lemma_link_keeps(s: SchemaView, models: Seq<Model>, child: Model)
    requires
        child.item_collection is Some,
        has_root(models, child),
        all_mapped(s.mapping, path_to(models, child)),
    ensures
        ({
            let t = populated(s, models, child);
            &&& t.mapping.dom() == s.mapping.dom()
            &&& t.tables == s.tables
            &&& t.lookup == s.lookup
            &&& forall|m: ModelId| #[trigger] t.mapping[m].model_column
                == s.mapping[m].model_column
            &&& forall|m: ModelId|
                s.mapping[m].path.len() > 0 ==> #[trigger] t.mapping[m].path == s.mapping[m].path
        }),
{
    let t = populated(s, models, child);
    let path = path_to(models, child);
    let table = s.mapping[root_of(models, child).id].table;
    let placed = place_path(s.mapping, table, path, path.len());
    lemma_place_path(s.mapping, table, path, path.len());
    lemma_path_ends(models, child);
    assert(s.mapping.contains_key(path[path.len() - 1]));
    assert(t.mapping.dom() =~= s.mapping.dom());
    assert forall|m: ModelId| #[trigger] t.mapping[m].model_column == s.mapping[m].model_column by {
        assert(placed[m].model_column == s.mapping[m].model_column);
    }
    assert forall|m: ModelId| s.mapping[m].path.len() > 0 implies #[trigger] t.mapping[m].path
        == s.mapping[m].path by {
        assert(placed[m].path == s.mapping[m].path);
    }
}

/// What linking several models does, one after the other.
pub proof fn lemma_linked_all(s: SchemaView, models: Seq<Model>, called: Seq<Model>)
    requires
        models_differ(models),
        can_link(s, models, called),
    ensures
        ({
            let t = linked_all(s, models, called);
            &&& t.mapping.dom() == s.mapping.dom()
            &&& t.tables == s.tables
            &&& t.lookup == s.lookup
            &&& forall|m: ModelId| #[trigger] t.mapping[m].model_column
                == s.mapping[m].model_column
            &&& forall|m: ModelId|
                s.mapping[m].path.len() > 0 ==> #[trigger] t.mapping[m].path == s.mapping[m].path
            &&& forall|m: Model| #[trigger]
                models.contains(m) ==> {
                    &&& m.item_collection is None ==> t.mapping[m.id].table == s.mapping[m.id].table
                    &&& path_fits(s, models, m) ==> path_fits(t, models, m)
                }
            &&& forall|k: int|
                0 <= k < called.len() && (#[trigger] called[k]).item_collection is Some
                    ==> is_linked_in(t, models, called[k])
        }),
    decreases called.len(),
{
    if called.len() > 0 {
        let rest = called.drop_last();
        let last = called[called.len() - 1];
        let u = linked_all(s, models, rest);
        let t = linked_all(s, models, called);
        assert forall|k: int| 0 <= k < rest.len() implies {
            &&& models.contains(#[trigger] rest[k])
            &&& rest[k].item_collection is Some ==> has_root(models, rest[k]) && all_mapped(
                s.mapping,
                path_to(models, rest[k]),
            )
        } by {
            assert(rest[k] == called[k]);
        }
        lemma_linked_all(s, models, rest);
        assert(models.contains(last));
        if last.item_collection is Some {
            let path = path_to(models, last);
            assert(all_mapped(u.mapping, path)) by {
                assert forall|i: int| 0 <= i < path.len() implies u.mapping.contains_key(
                    #[trigger] path[i],
                ) by {
                    assert(s.mapping.contains_key(path[i]));
                }
            }
            lemma_link_keeps(u, models, last);
            assert forall|m: ModelId| #[trigger] t.mapping[m].model_column
                == s.mapping[m].model_column by {
                assert(u.mapping[m].model_column == s.mapping[m].model_column);
            }
            assert forall|m: ModelId| s.mapping[m].path.len() > 0 implies #[trigger] t.mapping[m].path
                == s.mapping[m].path by {
                assert(u.mapping[m].path == s.mapping[m].path);
            }
            assert forall|m: Model| #[trigger] models.contains(m) implies {
                &&& m.item_collection is None ==> t.mapping[m.id].table == s.mapping[m.id].table
                &&& path_fits(s, models, m) ==> path_fits(t, models, m)
            } by {
                lemma_link_one(u, models, last, m);
            }
            assert forall|k: int|
                0 <= k < called.len() && (#[trigger] called[k]).item_collection is Some implies is_linked_in(
                t,
                models,
                called[k],
            ) by {
                let child = called[k];
                let root = root_of(models, child);
                lemma_root_member(models, child);
                lemma_link_one(u, models, last, child);
                lemma_link_one(u, models, last, root);
                if k < rest.len() {
                    assert(rest[k] == called[k]);
                    assert(is_linked_in(u, models, rest[k]));
                } else {
                    lemma_path_ends(models, last);
                    assert(path.contains(path[path.len() - 1]));
                    assert(path.contains(path[0]));
                }
            }
        } else {
            assert forall|k: int|
                0 <= k < called.len() && (#[trigger] called[k]).item_collection is Some implies is_linked_in(
                t,
                models,
                called[k],
            ) by {
                assert(rest[k] == called[k]);
                assert(is_linked_in(u, models, rest[k]));
            }
        }
    }
}

/// A model that is stored in a table is among its members.
proof fn lemma_stored_contains(
    models: Seq<Model>,
    mapping: Map<ModelId, ModelView>,
    table: TableId,
    roots: bool,
    model: Model,
)
    requires
        models.contains(model),
        mapping[model.id].table == table,
        model.item_collection is None == roots,
    ensures
        exists|k: int|
            0 <= k < stored_in(models, mapping, table, roots).len() && *(#[trigger] stored_in(
                models,
                mapping,
                table,
                roots,
            )[k]) == model,
    decreases models.len(),
{
    let all = stored_in(models, mapping, table, roots);
    let rest = stored_in(models.drop_last(), mapping, table, roots);
    let i = models.index_of(model);
    if i == models.len() - 1 {
        assert(*all[all.len() - 1] == model);
    } else {
        assert(models.drop_last()[i] == model);
        lemma_stored_contains(models.drop_last(), mapping, table, roots, model);
        let k = choose|k: int| 0 <= k < rest.len() && *(#[trigger] rest[k]) == model;
        assert(all[k] == rest[k]);
    }
}

/// Whether every child in the table has a path, and so has the root if there are
/// children.
pub open spec fn members_have_paths(
    mapping: Map<ModelId, ModelView>,
    models: Seq<Model>,
    table: TableId,
) -> bool {
    let roots = stored_in(models, mapping, table, true);
    let children = stored_in(models, mapping, table, false);
    &&& forall|k: int|
        0 <= k < children.len() ==> mapping[(#[trigger] children[k]).id].path.len() > 0
    &&& children.len() > 0 && roots.len() == 1 ==> mapping[roots[0].id].path.len() > 0
}

/// Once all children of the application are linked to their collections, in whatever
/// order, every child that is stored in a table has a path, and the single root of a
/// table with children has one too.
pub proof fn law_linking_gives_paths(
    s: SchemaView,
    models: Seq<Model>,
    called: Seq<Model>,
    table: TableId,
)
    requires
        models_differ(models),
        can_link(s, models, called),
        all_called(models, called),
    ensures
        members_have_paths(linked_all(s, models, called).mapping, models, table),
{
    let t = linked_all(s, models, called);
    let roots = stored_in(models, t.mapping, table, true);
    let children = stored_in(models, t.mapping, table, false);
    lemma_linked_all(s, models, called);
    lemma_members(models, t.mapping, table, false);
    assert forall|k: int| 0 <= k < children.len() implies {
        &&& t.mapping[(#[trigger] children[k]).id].path.len() > 0
        &&& models.contains(*children[k])
        &&& has_root(models, *children[k])
        &&& is_linked_in(t, models, *children[k])
    } by {
        assert(is_member(models, t.mapping, table, false, *children[k]));
        let i = choose|i: int| 0 <= i < models.len() && #[trigger] models[i] == *children[k];
        assert(called.contains(models[i]));
        let j = called.index_of(models[i]);
        assert(called[j] == *children[k]);
    }
    if children.len() > 0 && roots.len() == 1 {
        let child = *children[0];
        assert(t.mapping[children[0].id].path.len() > 0);
        assert(is_member(models, t.mapping, table, false, *children[0]));
        let root = root_of(models, child);
        lemma_root_member(models, child);
        lemma_stored_contains(models, t.mapping, table, true, root);
        let k = choose|k: int| 0 <= k < roots.len() && *(#[trigger] roots[k]) == root;
        assert(roots[0] == roots[k]);
    }
}

/// From empty paths, once all children of the application are linked to their
/// collections, the path of every child is the one that leads from its root to it, and
/// the path of its root is the root alone.
pub proof fn law_paths_lead_from_root(
    s: SchemaView,
    models: Seq<Model>,
    called: Seq<Model>,
    model: Model,
)
    requires
        models_differ(models),
        can_link(s, models, called),
        all_called(models, called),
        forall|i: int|
            0 <= i < models.len() ==> s.mapping[(#[trigger] models[i]).id].path.len() == 0,
        models.contains(model),
        model.item_collection is Some,
    ensures
        ({
            let t = linked_all(s, models, called);
            let root = root_of(models, model);
            &&& t.mapping[model.id].path == path_to(models, model)
            &&& t.mapping[root.id].path == seq![root.id]
        }),
{
    let t = linked_all(s, models, called);
    let root = root_of(models, model);
    lemma_linked_all(s, models, called);
    let i = models.index_of(model);
    assert(models[i].item_collection is Some);
    assert(called.contains(models[i]));
    let j = called.index_of(models[i]);
    assert(called[j] == model);
    assert(is_linked_in(t, models, called[j]));
    lemma_root_member(models, model);
    let r = models.index_of(root);
    assert(s.mapping[models[i].id].path.len() == 0);
    assert(s.mapping[models[r].id].path.len() == 0);
    assert(path_fits(t, models, model));
    assert(path_fits(t, models, root));
    lemma_lineage(models, root);
    assert(path_to(models, root) =~= seq![root.id]);
}

/// Only models with a path have a column for the model name: once all children of the
/// application are linked to their collections, in whatever order, building the tables
/// keeps that so. The models of a table with children share one such column.
pub proof fn law_name_columns_follow_paths(
    s: SchemaView,
    models: Seq<Model>,
    called: Seq<Model>,
    db: Capability,
    n: nat,
)
    requires
        models_differ(models),
        can_link(s, models, called),
        all_called(models, called),
        names_need_paths(s.mapping),
        numbered(s),
        tables_numbered(s),
        schema_ready(linked_all(s, models, called), models),
        n <= s.tables.len(),
        columns_counted(build_all(linked_all(s, models, called), models, db, n), n),
    ensures
        ({
            let t = linked_all(s, models, called);
            let u = build_all(t, models, db, n);
            &&& names_need_paths(u.mapping)
            &&& built_up_to(t, u, models, n)
        }),
    decreases n,
{
    let t = linked_all(s, models, called);
    lemma_linked_all(s, models, called);
    law_all_tables_are_complete(t, models, db, n);
    if n == 0 {
        assert forall|m: ModelId| #[trigger]
            t.mapping.contains_key(m) && t.mapping[m].model_column is Some implies t.mapping[m].path.len()
            > 0 by {
            assert(s.mapping.contains_key(m));
            assert(t.mapping[m].model_column == s.mapping[m].model_column);
            assert(t.mapping[m].path == s.mapping[m].path);
        }
    } else {
        let before = build_all(t, models, db, (n - 1) as nat);
        let after = build_all(t, models, db, n);
        let last = n - 1;
        law_building_keeps_numbering(t, models, db, (n - 1) as nat);
        assert forall|k: int| 0 <= k < n - 1 implies (#[trigger] before.tables[k]).columns.len()
            <= usize::MAX by {
            assert(after.tables[k] == before.tables[k]);
        }
        law_name_columns_follow_paths(s, models, called, db, (n - 1) as nat);
        let view = BuildView { table: before.tables[last], mapping: before.mapping };
        assert(before.tables[last] == t.tables[last]);
        let id = view.table.id;
        let roots = stored_in(models, t.mapping, id, true);
        let children = stored_in(models, t.mapping, id, false);
        assert(one_ready(BuildView { table: t.tables[last], mapping: t.mapping }, models));
        lemma_stored_in(models, t.mapping, before.mapping, id, true);
        lemma_stored_in(models, t.mapping, before.mapping, id, false);
        lemma_table_ready(view.table, t.mapping, before.mapping, *roots[0], children);
        law_linking_gives_paths(s, models, called, id);
        assert forall|k: int| 0 <= k < children.len() implies before.mapping[(
        #[trigger] children[k]).id].path.len() > 0 by {
            assert(t.mapping[children[k].id].path.len() > 0);
            assert(child_fits(t.mapping, *roots[0], children.take(k), *children[k]));
            assert(t.mapping.contains_key(children[k].id));
        }
        assert(t.mapping.contains_key(roots[0].id));
        assert(after.tables[last] == build_one(view, models, db).table);
        law_model_column_needs_path(view, db, children.len() > 0, *roots[0], children);
    }
}

} // verus!

//! What holds of the indices of all tables of a schema.

use crate::app::{Model, ModelId};
use crate::build_collection::table_ready;
use crate::build_schema::{SchemaView, numbered};
use crate::build_table::{BuildView, Capability};
use crate::build_tables::{
    build_all, build_one, lemma_stored_in, lemma_table_ready, one_ready, schema_ready, stored_in,
};
use crate::built_laws::{
    built_up_to, columns_counted, is_member, law_all_tables_are_complete, lemma_members,
    lemma_members_differ, lemma_one_built, models_differ, others_kept, tables_numbered,
};
use crate::db::{TableId, TableView};
use crate::index_laws::{
    declared, has_declared, is_index_of, law_indices_are_those_declared, lemma_declared_of_models,
};
use crate::key_laws::columns_numbered;
use crate::mapping::ModelView;
use crate::schema_laws::law_building_keeps_numbering;
use vstd::prelude::*;

verus! {

/// Whether the indices of a table are those that the models stored in it declare.
pub open spec fn table_indexed(
    table: TableView,
    mapping: Map<ModelId, ModelView>,
    models: Seq<Model>,
) -> bool {
    let roots = stored_in(models, mapping, table.id, true);
    let children = stored_in(models, mapping, table.id, false);
    &&& roots.len() == 1
    &&& has_declared(BuildView { table, mapping }, 0, declared(*roots[0], children))
}

/// Building another table leaves the indices of a table what they are.
proof fn lemma_indexed_kept(
    table: TableView,
    other: TableId,
    s: Map<ModelId, ModelView>,
    t: BuildView,
    models: Seq<Model>,
)
    requires
        table.id != other,
        table_indexed(table, s, models),
        crate::build_tables::grown(s, t.mapping),
        stored_in(models, s, other, true).len() > 0,
        forall|i: int| 0 <= i < models.len() ==> s.contains_key((#[trigger] models[i]).id),
        models_differ(models),
        others_kept(
            BuildView { mapping: s, ..t },
            t,
            stored_in(models, s, other, true)[0].id,
            stored_in(models, s, other, false),
        ),
    ensures
        table_indexed(table, t.mapping, models),
{
    let before = BuildView { table, mapping: s };
    let after = BuildView { table, mapping: t.mapping };
    let roots = stored_in(models, s, table.id, true);
    let children = stored_in(models, s, table.id, false);
    let other_roots = stored_in(models, s, other, true);
    let other_children = stored_in(models, s, other, false);
    lemma_stored_in(models, s, t.mapping, table.id, true);
    lemma_stored_in(models, s, t.mapping, table.id, false);
    lemma_members(models, s, table.id, true);
    lemma_members(models, s, table.id, false);
    lemma_members(models, s, other, true);
    lemma_members(models, s, other, false);
    assert(is_member(models, s, other, true, *other_roots[0]));
    assert forall|m: ModelId| s[m].table == table.id implies #[trigger] t.mapping[m] == s[m] by {
        assert forall|k: int| 0 <= k < other_children.len() implies (
        #[trigger] other_children[k]).id != m by {
            assert(is_member(models, s, other, false, *other_children[k]));
        }
    }
    let all = declared(*roots[0], children);
    lemma_declared_of_models(*roots[0], children);
    assert forall|k: int| 0 <= k < all.len() implies is_index_of(
        after,
        (#[trigger] all[k]).0,
        all[k].1,
        after.table.indices[0 + k],
    ) by {
        assert(is_index_of(before, all[k].0, all[k].1, before.table.indices[0 + k]));
        assert(is_member(models, s, table.id, true, *roots[0]));
        if all[k].0 != roots[0].id {
            let j = choose|j: int|
                0 <= j < children.len() && (#[trigger] children[j]).id == all[k].0;
            assert(is_member(models, s, table.id, false, *children[j]));
        }
        assert(after.mapping[all[k].0] == before.mapping[all[k].0]);
    }
}

/// Whether no table has an index yet.
pub open spec fn tables_unindexed(s: SchemaView) -> bool {
    forall|k: int| 0 <= k < s.tables.len() ==> (#[trigger] s.tables[k]).indices.len() == 0
}

/// Once all tables are built, the indices of every table are those that its models declare:
/// all of its root's, and all of its children's that are not over their primary keys, each
/// over the columns of the same fields, with the same operators and scopes, and unique if
/// and only if it is declared so.
pub proof fn law_all_tables_have_declared_indices(
    s: SchemaView,
    models: Seq<Model>,
    db: Capability,
    n: nat,
)
    requires
        numbered(s),
        schema_ready(s, models),
        models_differ(models),
        tables_numbered(s),
        tables_unindexed(s),
        n <= s.tables.len(),
        columns_counted(build_all(s, models, db, n), n),
    ensures
        ({
            let t = build_all(s, models, db, n);
            forall|k: int|
                0 <= k < n ==> table_indexed(#[trigger] t.tables[k], t.mapping, models)
        }),
    decreases n,
{
    let after = build_all(s, models, db, n);
    if n > 0 {
        let before = build_all(s, models, db, (n - 1) as nat);
        law_building_keeps_numbering(s, models, db, (n - 1) as nat);
        law_building_keeps_numbering(s, models, db, n);
        let last = n - 1;
        let view = BuildView { table: before.tables[last], mapping: before.mapping };
        let one = build_one(view, models, db);
        assert forall|k: int| 0 <= k < n - 1 implies (#[trigger] before.tables[k]).columns.len()
            <= usize::MAX by {
            assert(after.tables[k] == before.tables[k]);
        }
        law_all_tables_have_declared_indices(s, models, db, (n - 1) as nat);
        law_all_tables_are_complete(s, models, db, (n - 1) as nat);
        assert(built_up_to(s, before, models, (n - 1) as nat));
        assert(before.tables[last] == s.tables[last]);
        assert(one_ready(BuildView { table: s.tables[last], mapping: s.mapping }, models));
        lemma_stored_in(models, s.mapping, before.mapping, view.table.id, true);
        lemma_stored_in(models, s.mapping, before.mapping, view.table.id, false);
        let roots = stored_in(models, before.mapping, view.table.id, true);
        let children = stored_in(models, before.mapping, view.table.id, false);
        lemma_table_ready(view.table, s.mapping, before.mapping, *roots[0], children);
        assert forall|i: int| 0 <= i < models.len() implies before.mapping.contains_key(
            (#[trigger] models[i]).id,
        ) by {
            assert(s.mapping.contains_key(models[i].id));
        }
        assert(columns_numbered(s.tables[last]));
        assert(s.tables[last].indices.len() == 0);
        assert(after.tables[last] == one.table);
        lemma_one_built(view, models, db);
        lemma_members_differ(models, before.mapping, view.table.id);
        assert(table_ready(view, *roots[0], children));
        law_indices_are_those_declared(view, db, children.len() > 0, *roots[0], children);
        lemma_stored_in(models, before.mapping, one.mapping, view.table.id, true);
        lemma_stored_in(models, before.mapping, one.mapping, view.table.id, false);
        assert forall|k: int| 0 <= k < n implies table_indexed(
            #[trigger] after.tables[k],
            after.mapping,
            models,
        ) by {
            if k < last {
                assert(after.tables[k] == before.tables[k]);
                assert(table_indexed(before.tables[k], before.mapping, models));
                assert(before.tables[k].id.0 == k && before.tables[last].id.0 == last);
                lemma_indexed_kept(
                    before.tables[k],
                    view.table.id,
                    before.mapping,
                    one,
                    models,
                );
            }
        }
    }
}

} // verus!

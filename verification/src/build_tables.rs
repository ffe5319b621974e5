//! Builds every table from the models that are stored in it.

use crate::app::{self, Model, ModelId};
use crate::build_children::{
    child_index_ready, lemma_all_placed, lemma_key_index_place, model_column,
};
use crate::build_collection::{
    add_children, add_model_column, built, child_field_fits, child_fits, lemma_add_children,
    lemma_add_model_column, lemma_add_root, lemma_children_grow, named, table_ready, tag_model,
    tag_models,
};
use crate::build_schema::{BuildSchema, SchemaView};
use crate::build_table::{
    BuildTableFromModels, BuildView, Capability, add_root, all_placed, extends, lemma_extends_refl,
    lemma_extends_trans, placed, primitive_field, storable,
};
use crate::db::{ColumnId, TableId, TableView};
use crate::mapping::ModelView;
use vstd::prelude::*;

verus! {

/// The models that are stored in a table: the roots, or else the children.
pub open spec fn stored_in<'m>(
    models: Seq<Model>,
    mapping: Map<ModelId, ModelView>,
    table: TableId,
    roots: bool,
) -> Seq<&'m Model>
    decreases models.len(),
{
    if models.len() == 0 {
        Seq::empty()
    } else {
        let rest = stored_in(models.drop_last(), mapping, table, roots);
        let model = models.last();
        if mapping[model.id].table == table && model.item_collection is None == roots {
            rest.push(&model)
        } else {
            rest
        }
    }
}

/// One table and the mappings once it is built.
///
/// Column names carry the name of their model if the table holds several.
pub open spec fn build_one(s: BuildView, models: Seq<Model>, db: Capability) -> BuildView {
    let roots = stored_in(models, s.mapping, s.table.id, true);
    let children = stored_in(models, s.mapping, s.table.id, false);
    built(s, db, children.len() > 0, *roots[0], children)
}

/// The tables and the mappings once the first `n` tables are built.
pub open spec fn build_all(s: SchemaView, models: Seq<Model>, db: Capability, n: nat) -> SchemaView
    decreases n,
{
    if n == 0 {
        s
    } else {
        let before = build_all(s, models, db, (n - 1) as nat);
        let one = build_one(
            BuildView { table: before.tables[n - 1], mapping: before.mapping },
            models,
            db,
        );
        SchemaView {
            tables: before.tables.update(n - 1, one.table),
            mapping: one.mapping,
            ..before
        }
    }
}

/// Whether a table can be built: it has exactly one root, and its children fit.
pub open spec fn one_ready(s: BuildView, models: Seq<Model>) -> bool {
    let roots = stored_in(models, s.mapping, s.table.id, true);
    let children = stored_in(models, s.mapping, s.table.id, false);
    &&& roots.len() == 1
    &&& table_ready(s, *roots[0], children)
}

/// Whether every model has a mapping and every table can be built.
pub open spec fn schema_ready(s: SchemaView, models: Seq<Model>) -> bool {
    &&& forall|i: int| 0 <= i < models.len() ==> s.mapping.contains_key((#[trigger] models[i]).id)
    &&& forall|i: int|
        0 <= i < s.tables.len() ==> one_ready(
            BuildView { table: #[trigger] s.tables[i], mapping: s.mapping },
            models,
        )
}

/// Whether `t` knows of each model what `s` knows of its table, its path and its
/// links, and stores all that `s` stores.
pub open spec fn grown(s: Map<ModelId, ModelView>, t: Map<ModelId, ModelView>) -> bool {
    &&& t.dom() == s.dom()
    &&& forall|m: ModelId|
        #[trigger] s.contains_key(m) ==> {
            &&& t[m].fields.len() == s[m].fields.len()
            &&& t[m].links == s[m].links
            &&& t[m].table == s[m].table
            &&& t[m].path == s[m].path
            &&& t[m].id == s[m].id
        }
    &&& forall|m: ModelId, i: int| s.contains_key(m) && s[m].stores(i) ==> #[trigger] t[m].stores(i)
}

pub proof fn lemma_grown_trans(
    s: Map<ModelId, ModelView>,
    t: Map<ModelId, ModelView>,
    u: Map<ModelId, ModelView>,
)
    requires
        grown(s, t),
        grown(t, u),
    ensures
        grown(s, u),
{
    assert forall|m: ModelId, i: int| s.contains_key(m) && s[m].stores(i) implies #[trigger] u[m].stores(
    i) by {
        assert(t[m].stores(i));
    }
}

pub proof fn lemma_tags_extend(s: BuildView, models: Seq<&Model>, column: ColumnId)
    requires
        forall|k: int| 0 <= k < models.len() ==> s.mapping.contains_key((#[trigger] models[k]).id),
    ensures
        extends(s, tag_models(s, models, column)),
        tag_models(s, models, column).table == s.table,
        forall|m: ModelId| #[trigger] tag_models(s, models, column).mapping[m].fields
            == s.mapping[m].fields,
    decreases models.len(),
{
    if models.len() == 0 {
        lemma_extends_refl(s);
    } else {
        let rest = models.drop_last();
        let u = tag_models(s, rest, column);
        let t = tag_models(s, models, column);
        assert forall|k: int| 0 <= k < rest.len() implies s.mapping.contains_key(
            (#[trigger] rest[k]).id,
        ) by {
            assert(rest[k] == models[k]);
        }
        lemma_tags_extend(s, rest, column);
        assert(s.mapping.contains_key(models[models.len() - 1].id));
        lemma_tag_extends(u, *models.last(), column);
        lemma_extends_trans(s, u, t);
    }
}

pub proof fn lemma_tag_extends(s: BuildView, model: Model, column: ColumnId)
    requires
        s.mapping.contains_key(model.id),
    ensures
        extends(s, tag_model(s, model, column)),
        forall|m: ModelId| #[trigger] tag_model(s, model, column).mapping[m].fields
            == s.mapping[m].fields,
{
    let t = tag_model(s, model, column);
    assert(t.mapping.dom() =~= s.mapping.dom());
    assert forall|m: ModelId, i: int| placed(s, m, i) implies #[trigger] placed(t, m, i) by {}
}

proof fn lemma_named_extends(s: BuildView)
    ensures
        extends(s, BuildView { table: named(s.table), ..s }),
{
    let t = BuildView { table: named(s.table), ..s };
    assert forall|m: ModelId, i: int| placed(s, m, i) implies #[trigger] placed(t, m, i) by {}
}

/// Building a table keeps what was there and gives every primitive field a column.
pub proof fn lemma_built(
    s: BuildView,
    db: Capability,
    prefixed: bool,
    root: Model,
    children: Seq<&Model>,
)
    requires
        table_ready(s, root, children),
        built(s, db, prefixed, root, children).table.columns.len() <= usize::MAX,
    ensures
        ({
            let t = built(s, db, prefixed, root, children);
            &&& extends(s, t)
            &&& all_placed(t, root.fields@)
            &&& forall|k: int|
                0 <= k < children.len() ==> all_placed(t, (#[trigger] children[k]).fields@)
        }),
{
    let has_children = children.len() > 0;
    let a = add_root(s, root, prefixed, has_children);
    let t = built(s, db, prefixed, root, children);
    if !has_children {
        lemma_add_root(s, root, prefixed, has_children);
        lemma_named_extends(a);
        lemma_extends_trans(s, a, t);
        lemma_all_placed(a, t, root.fields@);
    } else {
        let column = model_column(a.table, db, root, children).id;
        let b = add_model_column(a, db, root, children);
        let c = add_children(b, children, root.id);
        let d = BuildView { table: named(c.table), ..c };
        let e = tag_model(d, root, column);
        assert(t.table == d.table) by {
            lemma_tags_table(e, children, column);
        }
        lemma_children_grow(b, children, root.id);
        lemma_add_root(s, root, prefixed, has_children);
        lemma_key_index_place(a.table.indices);
        lemma_add_model_column(a, db, root, children);
        lemma_extends_trans(s, a, b);
        lemma_all_placed(a, b, root.fields@);
        lemma_add_children(s, b, root, children);
        lemma_named_extends(c);
        lemma_extends_trans(s, c, d);
        assert(d.mapping.contains_key(root.id));
        lemma_tag_extends(d, root, column);
        lemma_extends_trans(s, d, e);
        assert forall|k: int| 0 <= k < children.len() implies e.mapping.contains_key(
            (#[trigger] children[k]).id,
        ) by {
            assert(child_fits(s.mapping, root, children.take(k), *children[k]));
        }
        lemma_tags_extend(e, children, column);
        lemma_extends_trans(s, e, t);
        lemma_extends_trans(c, d, e);
        lemma_extends_trans(c, e, t);
        lemma_all_placed(c, t, root.fields@);
        assert forall|k: int| 0 <= k < children.len() implies all_placed(
            t,
            (#[trigger] children[k]).fields@,
        ) by {
            assert(app::fields_numbered(*children[k]));
            lemma_all_placed(c, t, children[k].fields@);
        }
    }
}

pub proof fn lemma_tags_table(s: BuildView, models: Seq<&Model>, column: ColumnId)
    ensures
        tag_models(s, models, column).table == s.table,
    decreases models.len(),
{
    if models.len() > 0 {
        lemma_tags_table(s, models.drop_last(), column);
    }
}

/// The models of a table stay the same while other tables are built.
pub proof fn lemma_stored_in(
    models: Seq<Model>,
    s: Map<ModelId, ModelView>,
    t: Map<ModelId, ModelView>,
    table: TableId,
    roots: bool,
)
    requires
        grown(s, t),
        forall|i: int| 0 <= i < models.len() ==> s.contains_key((#[trigger] models[i]).id),
    ensures
        stored_in(models, t, table, roots) == stored_in(models, s, table, roots),
    decreases models.len(),
{
    if models.len() > 0 {
        let rest = models.drop_last();
        assert forall|i: int| 0 <= i < rest.len() implies s.contains_key((#[trigger] rest[i]).id) by {
            assert(rest[i] == models[i]);
        }
        lemma_stored_in(rest, s, t, table, roots);
        assert(s.contains_key(models[models.len() - 1].id));
    }
}

/// A table that can be built can still be built after others.
pub proof fn lemma_table_ready(
    table: TableView,
    s: Map<ModelId, ModelView>,
    t: Map<ModelId, ModelView>,
    root: Model,
    children: Seq<&Model>,
)
    requires
        grown(s, t),
        table_ready(BuildView { table, mapping: s }, root, children),
    ensures
        table_ready(BuildView { table, mapping: t }, root, children),
{
    assert forall|i: int| 0 <= i < root.fields@.len() implies storable(
        t,
        #[trigger] root.fields@[i],
    ) by {
        let field = root.fields@[i];
        assert(storable(s, field));
        if field.ty is Primitive {
            assert(t[field.id.model].stores(field.id.index as int));
        }
    }
    assert forall|j: int| 0 <= j < children.len() implies child_fits(
        t,
        root,
        children.take(j),
        *(#[trigger] children[j]),
    ) by {
        let model = *children[j];
        assert(child_fits(s, root, children.take(j), model));
        assert forall|i: int| 0 <= i < model.fields@.len() implies child_field_fits(
            t,
            root,
            children.take(j),
            model.id,
            #[trigger] model.fields@[i],
        ) by {
            let field = model.fields@[i];
            assert(child_field_fits(s, root, children.take(j), model.id, field));
            if s[model.id].stores(field.id.index as int) {
                assert(t[model.id].stores(field.id.index as int));
            }
            if field.ty is Primitive && s.contains_key(field.id.model)
                && s[field.id.model].stores(field.id.index as int) {
                assert(t[field.id.model].stores(field.id.index as int));
            }
        }
        assert forall|i: int|
            0 <= i < model.indices@.len() implies child_index_ready(
            t[model.id],
            model,
            #[trigger] model.indices@[i],
        ) by {
            let index = model.indices@[i];
            assert(child_index_ready(s[model.id], model, index));
            assert forall|k: int| 0 <= k < index.fields@.len() implies (
            primitive_field(model, #[trigger] index.fields@[k]) || (
            index.primary_key && t[model.id].is_linked(index.fields@[k].field))) by {}
        }
    }
}

impl<'a> BuildSchema<'a> {
    /// Builds every table from the models that are stored in it.
    pub fn build_tables_from_models(&mut self, app: &app::Schema, db: &Capability)
        requires
            schema_ready(old(self).state(), app.models@),
        ensures
            final(self).state() == build_all(
                old(self).state(),
                app.models@,
                *db,
                old(self).state().tables.len(),
            ),
            final(self).builder == old(self).builder,
    {
        let ghost start = self.state();
        let ghost models = app.models@;
        let n: usize = self.tables.len();
        let mut i: usize = 0;
        while i < n
            invariant
                i <= n,
                start == old(self).state(),
                models == app.models@,
                schema_ready(start, models),
                n == start.tables.len(),
                self.state() == build_all(start, models, *db, i as nat),
                self.state().tables.len() == n,
                forall|k: int|
                    i <= k < n ==> #[trigger] self.state().tables[k] == start.tables[k],
                grown(start.mapping, self.state().mapping),
                self.builder == old(self).builder,
            decreases n - i,
        {
            let ghost before = self.state();
            let ghost table = before.tables[i as int];
            let ghost s = BuildView { table, mapping: before.mapping };
            proof {
                assert(table == start.tables[i as int]);
                assert(one_ready(BuildView { table, mapping: start.mapping }, models));
                lemma_stored_in(models, start.mapping, before.mapping, table.id, true);
                lemma_stored_in(models, start.mapping, before.mapping, table.id, false);
            }
            let table_id = self.tables[i].id;
            let mut roots: Vec<&Model> = Vec::new();
            let mut children: Vec<&Model> = Vec::new();
            let mut j: usize = 0;
            assert(models.take(0) =~= Seq::<Model>::empty());
            while j < app.models.len()
                invariant
                    j <= models.len(),
                    models == app.models@,
                    table_id == table.id,
                    self.state() == before,
                    before.mapping.dom() == start.mapping.dom(),
                    schema_ready(start, models),
                    roots@ == stored_in(models.take(j as int), before.mapping, table.id, true),
                    children@ == stored_in(models.take(j as int), before.mapping, table.id, false),
                decreases models.len() - j,
            {
                assert(start.mapping.contains_key(models[j as int].id));
                assert(models.take(j + 1).drop_last() =~= models.take(j as int));
                let model = &app.models[j];
                if self.mapping.model(model.id).table == table_id {
                    if model.item_collection.is_none() {
                        roots.push(model);
                    } else {
                        children.push(model);
                    }
                }
                j = j + 1;
            }
            assert(models.take(j as int) =~= models);
            let root = roots[0];
            let ghost members = children@;
            proof {
                lemma_table_ready(table, start.mapping, before.mapping, *root, members);
            }
            // there is one root, so several models means children
            let prefix_table_names = children.len() > 0;
            let mut build = BuildTableFromModels {
                db,
                table: &mut self.tables[i],
                mapping: &mut self.mapping,
                prefix_table_names,
            };
            build.build(root, children);
            assert(self.tables@[i as int].columns.len() == self.tables@[i as int]@.columns.len());
            proof {
                let one = build_one(s, models, *db);
                assert(self.state().tables =~= before.tables.update(i as int, one.table));
                lemma_built(s, *db, members.len() > 0, *root, members);
                lemma_grown_trans(start.mapping, before.mapping, one.mapping);
            }
            i = i + 1;
        }
    }
}

} // verus!

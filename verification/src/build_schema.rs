//! Finds the tables that an application's models are stored in and builds them.

use crate::app::{self, Model, ModelId, Name};
use crate::db::{Table, TableId, TableView};
use crate::mapping::{Mapping, ModelView};
use crate::string_map::StringMap;
use vstd::prelude::*;

verus! {

/// What the application asks of the schema as a whole.
#[derive(Debug)]
pub struct Builder {
    /// Put before the name of every table
    pub table_name_prefix: Option<String>,
}

/// Builds the database schema of an application.
pub struct BuildSchema<'a> {
    pub builder: &'a Builder,
    /// The tables, each at the position that its identifier says
    pub tables: Vec<Table>,
    /// The tables by name
    pub table_lookup: StringMap<TableId>,
    /// How the models map to the tables
    pub mapping: Mapping,
}

/// What has been built so far.
#[verifier::ext_equal]
pub struct SchemaView {
    pub tables: Seq<TableView>,
    pub lookup: Map<Seq<char>, TableId>,
    pub mapping: Map<ModelId, ModelView>,
}

/// What each table of a list says.
pub open spec fn table_views(tables: Seq<Table>) -> Seq<TableView> {
    tables.map_values(|t: Table| t@)
}

/// A table name with the application's prefix before it.
pub open spec fn prefixed(builder: Builder, name: Seq<char>) -> Seq<char> {
    match builder.table_name_prefix {
        Some(prefix) => prefix@ + name,
        None => name,
    }
}

/// The schema with one more table, without columns so far.
pub open spec fn add_table(s: SchemaView, name: Seq<char>) -> SchemaView {
    let id = TableId(s.lookup.len() as usize);
    SchemaView {
        tables: s.tables.push(TableView::empty(id, name)),
        lookup: s.lookup.insert(name, id),
        ..s
    }
}

/// The schema once a model has been given its table, and that table.
///
/// A model with a table name of its own shares the table with all others of
/// that name. A child of an item collection is left for later. Any other model
/// gets a table of its own, named after its plural.
pub open spec fn stub(s: SchemaView, builder: Builder, model: Model) -> (SchemaView, TableId) {
    match model.table_name {
        Some(table_name) => {
            let name = prefixed(builder, table_name@);
            let t = if s.lookup.contains_key(name) {
                s
            } else {
                add_table(s, name)
            };
            (t, t.lookup[name])
        },
        None => if model.item_collection is Some {
            (s, TableId::placeholder_view())
        } else {
            (
                add_table(s, prefixed(builder, model.name.plural@)),
                TableId(s.lookup.len() as usize),
            )
        },
    }
}

/// Whether the tables stand where their identifiers say and are found by their names.
pub open spec fn numbered(s: SchemaView) -> bool {
    &&& s.lookup.dom().finite()
    &&& s.lookup.len() == s.tables.len()
    &&& forall|i: int| 0 <= i < s.tables.len() ==> (#[trigger] s.tables[i]).id.0 == i
    &&& forall|name: Seq<char>| #[trigger]
        s.lookup.contains_key(name) ==> s.lookup[name].0 < s.tables.len()
            && s.tables[s.lookup[name].0 as int].name == name
}

/// Whether `n` steps up from the model there is one that is in no collection.
pub open spec fn rooted(models: Seq<Model>, model: Model, n: nat) -> bool
    decreases n,
{
    match model.item_collection {
        Some(parent) => n > 0 && app::has_model(models, parent) && rooted(
            models,
            app::find_model(models, parent),
            (n - 1) as nat,
        ),
        None => n == 0,
    }
}

/// Whether the model's parents lead to a root.
pub open spec fn has_root(models: Seq<Model>, model: Model) -> bool {
    exists|n: nat| rooted(models, model, n)
}

/// How many steps there are from the model to its root.
pub open spec fn depth(models: Seq<Model>, model: Model) -> nat {
    choose|n: nat| rooted(models, model, n)
}

/// The model and those above it, up to `n` steps.
pub open spec fn ancestors(models: Seq<Model>, model: Model, n: nat) -> Seq<Model>
    decreases n,
{
    if n == 0 {
        seq![model]
    } else {
        seq![model] + ancestors(
            models,
            app::find_model(models, model.item_collection->0),
            (n - 1) as nat,
        )
    }
}

/// The model and those above it, up to its root.
pub open spec fn lineage(models: Seq<Model>, model: Model) -> Seq<Model> {
    ancestors(models, model, depth(models, model))
}

/// The identifiers of models.
pub open spec fn model_ids(models: Seq<Model>) -> Seq<ModelId> {
    models.map_values(|m: Model| m.id)
}

/// The path from the root to the model.
pub open spec fn path_to(models: Seq<Model>, model: Model) -> Seq<ModelId> {
    model_ids(lineage(models, model)).reverse()
}

/// The root of the collection that the model is in.
pub open spec fn root_of(models: Seq<Model>, model: Model) -> Model {
    lineage(models, model).last()
}

pub proof fn lemma_depth(models: Seq<Model>, model: Model, n: nat)
    requires
        rooted(models, model, n),
    ensures
        depth(models, model) == n,
        has_root(models, model),
        model.item_collection matches Some(parent) ==> {
            &&& has_root(models, app::find_model(models, parent))
            &&& depth(models, app::find_model(models, parent)) + 1 == n
        },
{
    assert forall|a: nat, b: nat| rooted(models, model, a) && rooted(models, model, b) implies a
        == b by {
        lemma_rooted_once(models, model, a, b);
    }
    match model.item_collection {
        Some(parent) => {
            let above = app::find_model(models, parent);
            assert(rooted(models, above, (n - 1) as nat));
            assert forall|a: nat, b: nat| rooted(models, above, a) && rooted(models, above, b) implies a
                == b by {
                lemma_rooted_once(models, above, a, b);
            }
        },
        None => {},
    }
}

proof fn lemma_rooted_once(models: Seq<Model>, model: Model, a: nat, b: nat)
    requires
        rooted(models, model, a),
        rooted(models, model, b),
    ensures
        a == b,
    decreases a,
{
    match model.item_collection {
        Some(parent) => {
            lemma_rooted_once(
                models,
                app::find_model(models, parent),
                (a - 1) as nat,
                (b - 1) as nat,
            );
        },
        None => {},
    }
}

pub proof fn lemma_lineage(models: Seq<Model>, model: Model)
    requires
        has_root(models, model),
    ensures
        lineage(models, model).len() > 0,
        lineage(models, model)[0] == model,
        match model.item_collection {
            Some(parent) => {
                let above = app::find_model(models, parent);
                &&& app::has_model(models, parent)
                &&& has_root(models, above)
                &&& depth(models, above) < depth(models, model)
                &&& lineage(models, model) == seq![model] + lineage(models, above)
                &&& lineage(models, above).len() > 0
            },
            None => lineage(models, model) == seq![model],
        },
    decreases depth(models, model),
{
    let n = choose|n: nat| rooted(models, model, n);
    lemma_depth(models, model, n);
    match model.item_collection {
        Some(parent) => {
            let above = app::find_model(models, parent);
            lemma_lineage(models, above);
        },
        None => {},
    }
}

proof fn lemma_lineage_at(models: Seq<Model>, model: Model, i: int)
    requires
        has_root(models, model),
        0 <= i < lineage(models, model).len(),
    ensures
        ({
            let above = lineage(models, model)[i];
            &&& depth(models, above) == depth(models, model) - i
            &&& i > 0 ==> app::find_model(models, above.id) == above
        }),
    decreases i,
{
    lemma_lineage(models, model);
    if i > 0 {
        let parent = model.item_collection->0;
        let above = app::find_model(models, parent);
        app::lemma_find_model(models, parent);
        let n = choose|n: nat| rooted(models, model, n);
        lemma_depth(models, model, n);
        assert(lineage(models, model)[i] == lineage(models, above)[i - 1]);
        lemma_lineage(models, above);
        lemma_lineage_at(models, above, i - 1);
    }
}

/// No model occurs twice between a model and its root.
pub proof fn lemma_path_distinct(models: Seq<Model>, model: Model)
    requires
        has_root(models, model),
        app::find_model(models, model.id) == model,
    ensures
        path_to(models, model).no_duplicates(),
{
    let all = lineage(models, model);
    let path = path_to(models, model);
    lemma_lineage(models, model);
    assert forall|i: int, j: int| 0 <= i < path.len() && 0 <= j < path.len() && i != j implies path[i]
        != path[j] by {
        let a = all.len() - 1 - i;
        let b = all.len() - 1 - j;
        lemma_lineage_at(models, model, a);
        lemma_lineage_at(models, model, b);
    }
}

impl<'a> BuildSchema<'a> {
    /// What has been built so far.
    pub open spec fn state(self) -> SchemaView {
        SchemaView {
            tables: table_views(self.tables@),
            lookup: self.table_lookup@,
            mapping: self.mapping@,
        }
    }

    /// Gives a model its table, as far as it can be known from the model alone.
    pub fn build_table_stub_for_model(&mut self, model: &Model) -> (r: TableId)
        requires
            model.table_name is None && model.item_collection is None ==> !old(
                self,
            ).state().lookup.contains_key(prefixed(*old(self).builder, model.name.plural@)),
        ensures
            (final(self).state(), r) == stub(old(self).state(), *old(self).builder, *model),
            final(self).builder == old(self).builder,
    {
        let ghost s = self.state();
        match &model.table_name {
            Some(table_name) => {
                let table_name = self.prefix_table_name(table_name.as_str());
                if !self.table_lookup.contains_key(table_name.as_str()) {
                    let id = self.register_table(table_name.as_str());
                    self.tables.push(Table::new(id, table_name.clone()));
                    assert(self.state() =~= add_table(s, table_name@));
                }
                *self.table_lookup.get(table_name.as_str()).unwrap()
            },
            None => {
                if model.item_collection.is_some() {
                    // return placeholder, so this can be fixed up in a second pass
                    TableId::placeholder()
                } else {
                    let name = self.table_name_from_model(&model.name);
                    let id = self.register_table(name.as_str());
                    self.tables.push(Table::new(id, name));
                    assert(self.state() =~= add_table(s, name@));
                    id
                }
            },
        }
    }

    /// Gives the next free identifier to a new table name.
    pub fn register_table(&mut self, name: &str) -> (r: TableId)
        requires
            !old(self).state().lookup.contains_key(name@),
        ensures
            r == TableId(old(self).state().lookup.len() as usize),
            old(self).state().lookup.len() <= usize::MAX,
            final(self).state() == (SchemaView {
                lookup: old(self).state().lookup.insert(name@, r),
                ..old(self).state()
            }),
            final(self).tables == old(self).tables,
            final(self).builder == old(self).builder,
    {
        let id = TableId(self.table_lookup.len());
        self.table_lookup.insert(name.to_string(), id);
        id
    }

    /// The name of the table of a model that asks for none.
    pub fn table_name_from_model(&self, model_name: &Name) -> (r: String)
        ensures
            r@ == prefixed(*self.builder, model_name.plural@),
    {
        self.prefix_table_name(model_name.plural.as_str())
    }

    /// A table name with the application's prefix before it.
    pub fn prefix_table_name(&self, name: &str) -> (r: String)
        ensures
            r@ == prefixed(*self.builder, name@),
    {
        match &self.builder.table_name_prefix {
            Some(prefix) => {
                let mut r = prefix.clone();
                r.append(name);
                r
            },
            None => name.to_string(),
        }
    }

    /// The table of the collection that the model is in, and the path from the
    /// root to the model.
    pub fn find_item_collection_path(&self, app: &app::Schema, model: &Model) -> (r: (
        TableId,
        Vec<ModelId>,
    ))
        requires
            has_root(app.models@, *model),
            self.state().mapping.contains_key(root_of(app.models@, *model).id),
        ensures
            r.0 == self.state().mapping[root_of(app.models@, *model).id].table,
            r.1@ == path_to(app.models@, *model),
    {
        let mut path: Vec<ModelId> = Vec::new();
        let table = self.find_item_collection_path_helper(app, model, &mut path);
        let ghost upwards = path@;
        let mut reversed: Vec<ModelId> = Vec::new();
        let mut i: usize = path.len();
        while i > 0
            invariant
                i <= path@.len(),
                path@ == upwards,
                reversed@ == upwards.skip(i as int).reverse(),
            decreases i,
        {
            i = i - 1;
            reversed.push(path[i]);
            assert(reversed@ =~= upwards.skip(i as int).reverse());
        }
        assert(upwards.skip(0) =~= upwards);
        assert(upwards =~= model_ids(lineage(app.models@, *model)));
        (table, reversed)
    }

    /// Walks from a model up to its root, and gives the root's table.
    pub fn find_item_collection_path_helper(
        &self,
        app: &app::Schema,
        model: &Model,
        path: &mut Vec<ModelId>,
    ) -> (r: TableId)
        requires
            has_root(app.models@, *model),
            self.state().mapping.contains_key(root_of(app.models@, *model).id),
        ensures
            final(path)@ == old(path)@ + model_ids(lineage(app.models@, *model)),
            r == self.state().mapping[root_of(app.models@, *model).id].table,
        decreases depth(app.models@, *model),
    {
        let ghost models = app.models@;
        let ghost start = path@;
        proof {
            lemma_lineage(models, *model);
        }
        path.push(model.id);
        match model.item_collection {
            Some(item_collection) => {
                let parent = app.model(item_collection);
                let table = self.find_item_collection_path_helper(app, parent, path);
                proof {
                    assert(path@ =~= start + model_ids(lineage(models, *model)));
                }
                table
            },
            None => {
                assert(path@ =~= start + model_ids(lineage(models, *model)));
                self.mapping.model(model.id).table
            },
        }
    }
}

} // verus!

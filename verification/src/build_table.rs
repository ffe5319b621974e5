//! Builds one table from the models that are stored in it.

use crate::app::{self, Field, FieldId, FieldPrimitive, FieldTy, Model, ModelId};
use crate::build_mapping::{
    BuildMapping, Lowering, field_ready, fields_ready, has_primitive, lemma_lower_fields, mapped,
};
use crate::db::{
    self, Column, ColumnId, ColumnView, IndexColumn, IndexId, IndexView, Table, TableView,
};
use crate::mapping::{Mapping, ModelView};
use crate::stmt::Type;
use vstd::prelude::*;

verus! {

/// What the database offers.
#[derive(Debug)]
pub struct Capability {
    /// The type in which text of limited length reaches the driver
    pub varchar_ty: Type,
}

/// Builds a table from a set of models.
pub struct BuildTableFromModels<'a> {
    /// Database-specific capabilities
    pub db: &'a Capability,
    /// The table being built from the set of models
    pub table: &'a mut Table,
    /// Schema mapping
    pub mapping: &'a mut Mapping,
    /// When true, column names should be prefixed with their associated model
    /// names
    pub prefix_table_names: bool,
}

/// A table under construction and the mappings of all models.
#[verifier::ext_equal]
pub struct BuildView {
    pub table: TableView,
    pub mapping: Map<ModelId, ModelView>,
}

/// The name of a column, with the prefix and two underscores before it if there is one.
pub open spec fn storage_name(prefix: Option<Seq<char>>, name: Seq<char>) -> Seq<char> {
    match prefix {
        Some(prefix) => prefix + "__"@ + name,
        None => name,
    }
}

/// The state with one more mapping for a model.
pub open spec fn put_model(s: BuildView, id: ModelId, model: ModelView) -> BuildView {
    BuildView { mapping: s.mapping.insert(id, model), ..s }
}

/// The state with a new column at the end of the table, in which the field is stored.
pub open spec fn add_column(
    s: BuildView,
    field: FieldId,
    primitive: FieldPrimitive,
    name: Seq<char>,
    nullable: bool,
) -> BuildView {
    let id = ColumnId { table: s.table.id, index: s.table.columns.len() as usize };
    let column = ColumnView {
        id,
        name,
        ty: primitive.storage->0.ty,
        storage_ty: primitive.storage->0.storage_ty,
        nullable,
        primary_key: false,
    };
    BuildView {
        table: TableView { columns: s.table.columns.push(column), ..s.table },
        mapping: s.mapping.insert(
            field.model,
            s.mapping[field.model].with_column(field.index as int, id),
        ),
    }
}

/// A field of the root model: a primitive field gets a column.
///
/// In a table that also holds children, every column that is not part of the
/// root's primary key is nullable, since it does not apply to child rows.
pub open spec fn root_field(
    s: BuildView,
    field: Field,
    prefix: Option<Seq<char>>,
    has_children: bool,
) -> BuildView {
    match field.ty {
        FieldTy::Primitive(primitive) => add_column(
            s,
            field.id,
            primitive,
            storage_name(prefix, field.name@),
            (has_children && !field.primary_key) || field.nullable,
        ),
        _ => s,
    }
}

/// The fields of the root model, one after the other.
pub open spec fn root_fields(
    s: BuildView,
    fields: Seq<Field>,
    prefix: Option<Seq<char>>,
    has_children: bool,
) -> BuildView
    decreases fields.len(),
{
    if fields.len() == 0 {
        s
    } else {
        root_field(
            root_fields(s, fields.drop_last(), prefix, has_children),
            fields.last(),
            prefix,
            has_children,
        )
    }
}

/// The columns of an index over fields of a model.
pub open spec fn index_columns(mapping: ModelView, fields: Seq<app::IndexField>) -> Seq<
    IndexColumn,
> {
    fields.map_values(
        |f: app::IndexField|
            IndexColumn {
                column: mapping.column_of(f.field.index as int),
                op: f.op,
                scope: f.scope,
            },
    )
}

/// The identifiers of index columns.
pub open spec fn column_ids(columns: Seq<IndexColumn>) -> Seq<ColumnId> {
    columns.map_values(|c: IndexColumn| c.column)
}

/// The state with a new index at the end of the table.
///
/// The columns of a primary key index are also columns of the primary key.
pub open spec fn add_index(s: BuildView, model: ModelId, index: app::Index) -> BuildView {
    let columns = index_columns(s.mapping[model], index.fields@);
    BuildView {
        table: TableView {
            indices: s.table.indices.push(
                IndexView {
                    id: IndexId { table: s.table.id, index: s.table.indices.len() as usize },
                    name: Seq::empty(),
                    on: s.table.id,
                    columns,
                    unique: index.unique,
                    primary_key: index.primary_key,
                },
            ),
            key_columns: if index.primary_key {
                s.table.key_columns + column_ids(columns)
            } else {
                s.table.key_columns
            },
            ..s.table
        },
        ..s
    }
}

/// The indices of a model, one after the other.
pub open spec fn add_indices(s: BuildView, model: ModelId, indices: Seq<app::Index>) -> BuildView
    decreases indices.len(),
{
    if indices.len() == 0 {
        s
    } else {
        add_index(add_indices(s, model, indices.drop_last()), model, indices.last())
    }
}

/// The state in which the model's mapping is expressed in terms of its columns.
pub open spec fn map_model(s: BuildView, model: Model) -> BuildView {
    put_model(s, model.id, mapped(s.table, s.mapping[model.id], model))
}

/// The prefix of the columns of the root model.
pub open spec fn root_prefix(model: Model, prefixed: bool) -> Option<Seq<char>> {
    if prefixed {
        Some(model.name.snake_case@)
    } else {
        None
    }
}

/// The state once the root model is in the table.
pub open spec fn add_root(
    s: BuildView,
    model: Model,
    prefixed: bool,
    has_children: bool,
) -> BuildView {
    let columns = root_fields(s, model.fields@, root_prefix(model, prefixed), has_children);
    add_indices(map_model(columns, model), model.id, model.indices@)
}

/// Whether a model's field has a column of the table.
pub open spec fn placed(s: BuildView, model: ModelId, index: int) -> bool {
    &&& s.mapping.contains_key(model)
    &&& s.mapping[model].stores(index)
    &&& s.mapping[model].column_of(index).table == s.table.id
    &&& s.table.has_column(s.mapping[model].column_of(index))
}

/// Whether everything that has a column in `s` has one in `t`, and `t` has the
/// columns of `s` and maybe more.
pub open spec fn extends(s: BuildView, t: BuildView) -> bool {
    &&& t.table.id == s.table.id
    &&& t.table.name == s.table.name
    &&& s.table.columns.is_prefix_of(t.table.columns)
    &&& t.mapping.dom() == s.mapping.dom()
    &&& forall|m: ModelId|
        #[trigger] s.mapping.contains_key(m) ==> {
            &&& t.mapping[m].fields.len() == s.mapping[m].fields.len()
            &&& t.mapping[m].links == s.mapping[m].links
            &&& t.mapping[m].table == s.mapping[m].table
            &&& t.mapping[m].path == s.mapping[m].path
            &&& t.mapping[m].id == s.mapping[m].id
        }
    &&& forall|m: ModelId, i: int|
        s.mapping.contains_key(m) && s.mapping[m].stores(i) ==> #[trigger] t.mapping[m].stores(i)
    &&& forall|m: ModelId, i: int| placed(s, m, i) ==> #[trigger] placed(t, m, i)
}

/// Whether the field, if it is primitive, can be given a column.
pub open spec fn storable(mapping: Map<ModelId, ModelView>, field: Field) -> bool {
    field.ty matches FieldTy::Primitive(primitive) ==> {
        &&& primitive.storage is Some
        &&& primitive.ty != Type::Null
        &&& mapping.contains_key(field.id.model)
        &&& mapping[field.id.model].stores(field.id.index as int)
    }
}

/// Whether an index is over primitive fields of the model.
pub open spec fn index_ready(model: Model, index: app::Index) -> bool {
    forall|i: int|
        0 <= i < index.fields@.len() ==> primitive_field(model, #[trigger] index.fields@[i])
}

/// Whether an index field is a primitive field of the model.
pub open spec fn primitive_field(model: Model, field: app::IndexField) -> bool {
    field.field.index < model.fields@.len() && model.fields@[field.field.index as int].ty is Primitive
}

/// Whether a model can be the root of a table.
pub open spec fn root_ready(mapping: Map<ModelId, ModelView>, model: Model) -> bool {
    &&& app::fields_numbered(model)
    &&& mapping.contains_key(model.id)
    &&& has_primitive(model.fields@)
    &&& forall|i: int| 0 <= i < model.fields@.len() ==> storable(mapping, #[trigger] model.fields@[i])
    &&& forall|i: int|
        0 <= i < model.indices@.len() ==> index_ready(model, #[trigger] model.indices@[i])
}

pub proof fn lemma_extends_trans(s: BuildView, t: BuildView, u: BuildView)
    requires
        extends(s, t),
        extends(t, u),
    ensures
        extends(s, u),
{
    assert forall|m: ModelId, i: int|
        s.mapping.contains_key(m) && s.mapping[m].stores(i) implies #[trigger] u.mapping[m].stores(
        i,
    ) by {
        assert(t.mapping[m].stores(i));
    }
    assert forall|m: ModelId, i: int| placed(s, m, i) implies #[trigger] placed(u, m, i) by {
        assert(placed(t, m, i));
    }
}

pub proof fn lemma_add_column(
    s: BuildView,
    field: FieldId,
    primitive: FieldPrimitive,
    name: Seq<char>,
    nullable: bool,
)
    requires
        s.mapping.contains_key(field.model),
        s.mapping[field.model].stores(field.index as int),
        s.table.columns.len() < usize::MAX,
    ensures
        extends(s, add_column(s, field, primitive, name, nullable)),
        placed(
            add_column(s, field, primitive, name, nullable),
            field.model,
            field.index as int,
        ),
{
    let t = add_column(s, field, primitive, name, nullable);
    assert(t.mapping.dom() =~= s.mapping.dom());
    assert forall|m: ModelId, i: int| placed(s, m, i) implies #[trigger] placed(t, m, i) by {}
}

impl<'a> BuildTableFromModels<'a> {
    /// What has been built so far.
    pub open spec fn state(self) -> BuildView {
        BuildView { table: self.table@, mapping: self.mapping@ }
    }

    /// Adds a column and stores a primitive field in it.
    pub fn create_column_for_primitive(
        &mut self,
        field_id: FieldId,
        primitive: &FieldPrimitive,
        name: &str,
        prefix: Option<&str>,
        nullable: bool,
    )
        requires
            primitive.storage is Some,
            old(self).state().mapping.contains_key(field_id.model),
            old(self).state().mapping[field_id.model].stores(field_id.index as int),
        ensures
            final(self).state() == add_column(
                old(self).state(),
                field_id,
                *primitive,
                storage_name(
                    match prefix {
                        Some(p) => Some(p@),
                        None => None,
                    },
                    name@,
                ),
                nullable,
            ),
            old(self).state().table.columns.len() < usize::MAX,
            final(self).db == old(self).db,
            final(self).prefix_table_names == old(self).prefix_table_names,
            *final(final(self).table) == *final(old(self).table),
            *final(final(self).mapping) == *final(old(self).mapping),
    {
        let column_name = match prefix {
            Some(prefix) => {
                let mut column_name = prefix.to_string();
                column_name.append("__");
                column_name.append(name);
                column_name
            },
            None => name.to_string(),
        };
        let storage = primitive.storage.unwrap();
        let column_id = ColumnId { table: self.table.id, index: self.table.columns.len() };
        let column = Column {
            id: column_id,
            name: column_name,
            ty: storage.ty,
            storage_ty: storage.storage_ty,
            nullable,
            primary_key: false,
        };
        self.mapping.model_mut(field_id.model).set_column(field_id.index, column_id);
        let ghost columns = self.table@.columns;
        self.table.columns.push(column);
        assert(self.table.columns.len() == self.table@.columns.len());
        assert(self.table@.columns =~= columns.push(column@));
        assert(self.state().table =~= add_column(
            old(self).state(),
            field_id,
            *primitive,
            column@.name,
            nullable,
        ).table);
    }
}

/// Whether every field of the list can be given a column.
pub open spec fn all_storable(mapping: Map<ModelId, ModelView>, fields: Seq<Field>) -> bool {
    forall|i: int| 0 <= i < fields.len() ==> storable(mapping, #[trigger] fields[i])
}

/// Whether every primitive field of the list has a column of the table.
pub open spec fn all_placed(s: BuildView, fields: Seq<Field>) -> bool {
    forall|i: int|
        0 <= i < fields.len() && (#[trigger] fields[i]).ty is Primitive ==> placed(
            s,
            fields[i].id.model,
            fields[i].id.index as int,
        )
}

/// Whether `t` differs from `s` in the mapping of the given model alone.
pub open spec fn same_but_for(s: BuildView, t: BuildView, model: ModelId) -> bool {
    forall|m: ModelId| m != model ==> #[trigger] t.mapping[m] == s.mapping[m]
}

pub proof fn lemma_extends_refl(s: BuildView)
    ensures
        extends(s, s),
{
}

pub proof fn lemma_root_fields(
    s: BuildView,
    fields: Seq<Field>,
    prefix: Option<Seq<char>>,
    has_children: bool,
    model: ModelId,
)
    requires
        all_storable(s.mapping, fields),
        root_fields(s, fields, prefix, has_children).table.columns.len() <= usize::MAX,
        forall|i: int| 0 <= i < fields.len() ==> (#[trigger] fields[i]).id.model == model,
    ensures
        ({
            let t = root_fields(s, fields, prefix, has_children);
            &&& extends(s, t)
            &&& all_placed(t, fields)
            &&& same_but_for(s, t, model)
            &&& t.table.indices == s.table.indices
            &&& t.table.key_columns == s.table.key_columns
            &&& t.table.key_index == s.table.key_index
        }),
    decreases fields.len(),
{
    if fields.len() == 0 {
        lemma_extends_refl(s);
    } else {
        let rest = fields.drop_last();
        assert forall|i: int| 0 <= i < rest.len() implies storable(s.mapping, #[trigger] rest[i])
            && rest[i].id.model == model by {
            assert(rest[i] == fields[i]);
        }
        let u = root_fields(s, rest, prefix, has_children);
        let t = root_fields(s, fields, prefix, has_children);
        let field = fields.last();
        lemma_root_fields(s, rest, prefix, has_children, model);
        assert(storable(s.mapping, fields[fields.len() - 1]));
        match field.ty {
            FieldTy::Primitive(primitive) => {
                let nullable = (has_children && !field.primary_key) || field.nullable;
                let name = storage_name(prefix, field.name@);
                assert(u.mapping[model].stores(field.id.index as int));
                lemma_add_column(u, field.id, primitive, name, nullable);
                lemma_extends_trans(s, u, t);
            },
            _ => {},
        }
        assert forall|i: int|
            0 <= i < fields.len() && (#[trigger] fields[i]).ty is Primitive implies placed(
            t,
            fields[i].id.model,
            fields[i].id.index as int,
        ) by {
            if i < rest.len() {
                assert(rest[i] == fields[i]);
                assert(placed(u, rest[i].id.model, rest[i].id.index as int));
            }
        }
    }
}

/// Fields that have a column are ready to be mapped.
pub proof fn lemma_ready(s: BuildView, model: Model)
    requires
        app::fields_numbered(model),
        all_placed(s, model.fields@),
        s.table.columns.len() <= usize::MAX,
        forall|i: int|
            0 <= i < model.fields@.len() ==> ((#[trigger] model.fields@[i]).ty matches
                FieldTy::Primitive(p) ==> p.ty != Type::Null),
    ensures
        fields_ready(s.table, s.mapping[model.id], model.fields@),
{
    assert forall|i: int| 0 <= i < model.fields@.len() implies field_ready(
        s.table,
        s.mapping[model.id],
        #[trigger] model.fields@[i],
    ) by {
        let field = model.fields@[i];
        if field.ty is Primitive {
            assert(placed(s, field.id.model, field.id.index as int));
        }
    }
}

pub proof fn lemma_map_model(s: BuildView, model: Model)
    requires
        s.mapping.contains_key(model.id),
        fields_ready(s.table, s.mapping[model.id], model.fields@),
    ensures
        extends(s, map_model(s, model)),
        same_but_for(s, map_model(s, model), model.id),
        map_model(s, model).table == s.table,
{
    let mapping = s.mapping[model.id];
    let t = map_model(s, model);
    lemma_lower_fields(
        s.table,
        Lowering { mapping, columns: Seq::empty(), exprs: Seq::empty() },
        model.fields@,
    );
    assert(t.mapping.dom() =~= s.mapping.dom());
    assert forall|m: ModelId, i: int|
        s.mapping.contains_key(m) && s.mapping[m].stores(i) implies #[trigger] t.mapping[m].stores(
        i,
    ) by {
        if m == model.id {
            assert(t.mapping[m].fields[i] is Some == mapping.fields[i] is Some);
        }
    }
    assert forall|m: ModelId, i: int| placed(s, m, i) implies #[trigger] placed(t, m, i) by {
        if m == model.id {
            assert(t.mapping[m].fields[i] is Some == mapping.fields[i] is Some);
        }
    }
}

pub proof fn lemma_add_indices(s: BuildView, model: ModelId, indices: Seq<app::Index>)
    ensures
        extends(s, add_indices(s, model, indices)),
        add_indices(s, model, indices).mapping == s.mapping,
        add_indices(s, model, indices).table.columns == s.table.columns,
    decreases indices.len(),
{
    if indices.len() == 0 {
        lemma_extends_refl(s);
    } else {
        let u = add_indices(s, model, indices.drop_last());
        let t = add_indices(s, model, indices);
        lemma_add_indices(s, model, indices.drop_last());
        assert(extends(u, t)) by {
            assert forall|m: ModelId, i: int| placed(u, m, i) implies #[trigger] placed(t, m, i) by {}
        }
        lemma_extends_trans(s, u, t);
    }
}

impl<'a> BuildTableFromModels<'a> {
    /// Adds the columns and the indices of the root model, and maps it.
    pub fn map_model_fields(&mut self, model: &Model, has_children: bool)
        requires
            root_ready(old(self).state().mapping, *model),
        ensures
            final(self).state() == add_root(
                old(self).state(),
                *model,
                old(self).prefix_table_names,
                has_children,
            ),
            final(self).state().table.columns.len() <= usize::MAX,
            final(self).db == old(self).db,
            final(self).prefix_table_names == old(self).prefix_table_names,
            *final(final(self).table) == *final(old(self).table),
            *final(final(self).mapping) == *final(old(self).mapping),
    {
        let prefix: Option<String> = if self.prefix_table_names {
            Some(model.name.snake_case())
        } else {
            None
        };
        let ghost start = self.state();
        let ghost prefix_view = root_prefix(*model, self.prefix_table_names);

        // First, populate columns
        let mut i: usize = 0;
        assert(self.table.columns.len() == self.table@.columns.len());
        assert(model.fields@.take(0) =~= Seq::<Field>::empty());
        while i < model.fields.len()
            invariant
                i <= model.fields@.len(),
                start == old(self).state(),
                root_ready(start.mapping, *model),
                prefix_view == root_prefix(*model, old(self).prefix_table_names),
                match (prefix, prefix_view) {
                    (Some(p), Some(v)) => p@ == v,
                    (None, None) => true,
                    _ => false,
                },
                self.state() == root_fields(
                    start,
                    model.fields@.take(i as int),
                    prefix_view,
                    has_children,
                ),
                self.state().table.columns.len() <= usize::MAX,
                self.db == old(self).db,
                self.prefix_table_names == old(self).prefix_table_names,
                *final(self.table) == *final(old(self).table),
                *final(self.mapping) == *final(old(self).mapping),
            decreases model.fields@.len() - i,
        {
            let field = &model.fields[i];
            proof {
                let done = model.fields@.take(i as int);
                assert forall|k: int| 0 <= k < done.len() implies storable(
                    start.mapping,
                    #[trigger] done[k],
                ) && done[k].id.model == model.id by {
                    assert(done[k] == model.fields@[k]);
                }
                lemma_root_fields(start, done, prefix_view, has_children, model.id);
                assert(storable(start.mapping, model.fields@[i as int]));
                assert(model.fields@.take(i + 1).drop_last() =~= done);
            }
            match &field.ty {
                FieldTy::Primitive(simple) => {
                    // non-PK fields of the root model are always nullable since they
                    // don't apply to child rows
                    let nullable = if has_children && !field.primary_key {
                        true
                    } else {
                        field.nullable
                    };
                    let prefix_str: Option<&str> = match &prefix {
                        Some(p) => Some(p.as_str()),
                        None => None,
                    };
                    assert(start.mapping[model.id].stores(field.id.index as int));
                    assert(self.state().mapping[model.id].stores(field.id.index as int));
                    self.create_column_for_primitive(
                        field.id,
                        simple,
                        field.name.as_str(),
                        prefix_str,
                        nullable,
                    );
                },
                // Relations do not have columns
                FieldTy::BelongsTo(_) | FieldTy::HasMany(_) | FieldTy::HasOne(_) => {},
            }
            assert(self.table.columns.len() == self.table@.columns.len());
            i = i + 1;
        }
        proof {
            assert(model.fields@.take(i as int) =~= model.fields@);
            lemma_root_fields(start, model.fields@, prefix_view, has_children, model.id);
            lemma_ready(self.state(), *model);
        }
        self.map_columns(model);
        proof {
            lemma_add_indices(self.state(), model.id, model.indices@);
        }
        self.populate_model_indices(model);
    }

    /// Maps a model whose fields have their columns.
    pub(crate) fn map_columns(&mut self, model: &Model)
        requires
            old(self).state().mapping.contains_key(model.id),
            has_primitive(model.fields@),
            fields_ready(
                old(self).state().table,
                old(self).state().mapping[model.id],
                model.fields@,
            ),
        ensures
            final(self).state() == map_model(old(self).state(), *model),
            extends(old(self).state(), final(self).state()),
            final(self).db == old(self).db,
            final(self).prefix_table_names == old(self).prefix_table_names,
            *final(final(self).table) == *final(old(self).table),
            *final(final(self).mapping) == *final(old(self).mapping),
    {
        let ghost s = self.state();
        proof {
            lemma_map_model(s, *model);
            lemma_lower_fields(
                s.table,
                Lowering {
                    mapping: s.mapping[model.id],
                    columns: Seq::empty(),
                    exprs: Seq::empty(),
                },
                model.fields@,
            );
        }
        let build = BuildMapping {
            table: &*self.table,
            mapping: self.mapping.model_mut(model.id),
            lowering_columns: Vec::new(),
            model_to_table: Vec::new(),
            model_pk_to_table: Vec::new(),
            table_to_model: Vec::new(),
        };
        build.build_mapping(model);
        assert(self.state().mapping[model.id] =~= mapped(s.table, s.mapping[model.id], *model));
        assert(self.state() =~= map_model(s, *model));
    }

    /// Adds the indices of a model.
    pub fn populate_model_indices(&mut self, model: &Model)
        requires
            old(self).state().mapping.contains_key(model.id),
            forall|i: int|
                0 <= i < model.indices@.len() ==> index_ready(*model, #[trigger] model.indices@[i]),
            forall|k: int|
                0 <= k < model.fields@.len() && (#[trigger] model.fields@[k]).ty is Primitive
                    ==> old(self).state().mapping[model.id].stores(k),
        ensures
            final(self).state() == add_indices(old(self).state(), model.id, model.indices@),
            final(self).db == old(self).db,
            final(self).prefix_table_names == old(self).prefix_table_names,
            *final(final(self).table) == *final(old(self).table),
            *final(final(self).mapping) == *final(old(self).mapping),
    {
        let ghost start = self.state();
        let mut i: usize = 0;
        assert(model.indices@.take(0) =~= Seq::<app::Index>::empty());
        while i < model.indices.len()
            invariant
                i <= model.indices@.len(),
                start == old(self).state(),
                start.mapping.contains_key(model.id),
                forall|k: int|
                    0 <= k < model.indices@.len() ==> index_ready(
                        *model,
                        #[trigger] model.indices@[k],
                    ),
                forall|k: int|
                    0 <= k < model.fields@.len() && (#[trigger] model.fields@[k]).ty is Primitive
                        ==> start.mapping[model.id].stores(k),
                self.state() == add_indices(start, model.id, model.indices@.take(i as int)),
                self.state().mapping == start.mapping,
                self.db == old(self).db,
                self.prefix_table_names == old(self).prefix_table_names,
                *final(self.table) == *final(old(self).table),
                *final(self.mapping) == *final(old(self).mapping),
            decreases model.indices@.len() - i,
        {
            let model_index = &model.indices[i];
            assert(model.indices@.take(i + 1).drop_last() =~= model.indices@.take(i as int));
            assert(index_ready(*model, model.indices@[i as int]));
            self.push_model_index(model, model_index);
            i = i + 1;
        }
        assert(model.indices@.take(i as int) =~= model.indices@);
    }

    /// Adds one index of a model.
    pub(crate) fn push_model_index(&mut self, model: &Model, model_index: &app::Index)
        requires
            old(self).state().mapping.contains_key(model.id),
            index_ready(*model, *model_index),
            forall|k: int|
                0 <= k < model.fields@.len() && (#[trigger] model.fields@[k]).ty is Primitive
                    ==> old(self).state().mapping[model.id].stores(k),
        ensures
            final(self).state() == add_index(old(self).state(), model.id, *model_index),
            final(self).db == old(self).db,
            final(self).prefix_table_names == old(self).prefix_table_names,
            *final(final(self).table) == *final(old(self).table),
            *final(final(self).mapping) == *final(old(self).mapping),
    {
        let ghost s = self.state();
        let mut index = db::Index {
            id: IndexId { table: self.table.id, index: self.table.indices.len() },
            name: String::new(),
            on: self.table.id,
            columns: Vec::new(),
            unique: model_index.unique,
            primary_key: model_index.primary_key,
        };
        self.populate_model_index(model, model_index, &mut index);
        let ghost indices = self.table@.indices;
        let ghost added = index@;
        self.table.indices.push(index);
        proof {
            assert(self.table@.indices =~= indices.push(added));
            assert(added =~= add_index(s, model.id, *model_index).table.indices.last());
            assert(self.state().table =~= add_index(s, model.id, *model_index).table);
        }
    }

    /// Fills an index with the columns of the fields that it is over.
    pub fn populate_model_index(
        &mut self,
        model: &Model,
        model_index: &app::Index,
        index: &mut db::Index,
    )
        requires
            old(self).state().mapping.contains_key(model.id),
            index_ready(*model, *model_index),
            forall|k: int|
                0 <= k < model.fields@.len() && (#[trigger] model.fields@[k]).ty is Primitive
                    ==> old(self).state().mapping[model.id].stores(k),
        ensures
            ({
                let columns = index_columns(
                    old(self).state().mapping[model.id],
                    model_index.fields@,
                );
                let s = old(self).state();
                &&& final(index)@ == (IndexView { columns: old(index)@.columns + columns, ..old(index)@ })
                &&& final(self).state() == (BuildView {
                    table: TableView {
                        key_columns: if model_index.primary_key {
                            s.table.key_columns + column_ids(columns)
                        } else {
                            s.table.key_columns
                        },
                        ..s.table
                    },
                    ..s
                })
            }),
            final(self).db == old(self).db,
            final(self).prefix_table_names == old(self).prefix_table_names,
            *final(final(self).table) == *final(old(self).table),
            *final(final(self).mapping) == *final(old(self).mapping),
    {
        let ghost s = self.state();
        let ghost first = index@;
        let ghost fields = model_index.fields@;
        let ghost mapping = s.mapping[model.id];
        let mut i: usize = 0;
        assert(first.columns + index_columns(mapping, fields.take(0)) =~= first.columns);
        assert(s.table.key_columns + column_ids(index_columns(mapping, fields.take(0)))
            =~= s.table.key_columns);
        while i < model_index.fields.len()
            invariant
                i <= model_index.fields@.len(),
                fields == model_index.fields@,
                s == old(self).state(),
                mapping == s.mapping[model.id],
                s.mapping.contains_key(model.id),
                index_ready(*model, *model_index),
                forall|k: int|
                    0 <= k < model.fields@.len() && (#[trigger] model.fields@[k]).ty is Primitive
                        ==> mapping.stores(k),
                index@ == (IndexView {
                    columns: first.columns + index_columns(mapping, fields.take(i as int)),
                    ..first
                }),
                self.state() == (BuildView {
                    table: TableView {
                        key_columns: if model_index.primary_key {
                            s.table.key_columns + column_ids(
                                index_columns(mapping, fields.take(i as int)),
                            )
                        } else {
                            s.table.key_columns
                        },
                        ..s.table
                    },
                    ..s
                }),
                self.db == old(self).db,
                self.prefix_table_names == old(self).prefix_table_names,
                *final(self.table) == *final(old(self).table),
                *final(self.mapping) == *final(old(self).mapping),
            decreases model_index.fields@.len() - i,
        {
            let index_field = model_index.fields[i];
            let ghost before = self.state();
            assert(primitive_field(*model, model_index.fields@[i as int]));
            let column = self.mapping.model(model.id).column_of(index_field.field.index);
            index.columns.push(
                IndexColumn { column, op: index_field.op, scope: index_field.scope },
            );
            if model_index.primary_key {
                self.table.primary_key.columns.push(column);
            }
            proof {
                assert(fields.take(i + 1) =~= fields.take(i as int).push(index_field));
                assert(index@.columns =~= first.columns + index_columns(mapping, fields.take(i + 1)));
                assert(self.state().table.columns =~= before.table.columns);
                assert(self.state().table.indices =~= before.table.indices);
                if model_index.primary_key {
                    assert(self.state().table.key_columns =~= s.table.key_columns + column_ids(
                        index_columns(mapping, fields.take(i + 1)),
                    ));
                }
            }
            i = i + 1;
        }
        assert(fields.take(i as int) =~= fields);
    }
}

} // verus!

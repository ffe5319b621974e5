//! Adds the children of an item collection to the table of its root.

use crate::app::{self, Field, FieldTy, Model, ModelId};
use crate::build_mapping::has_primitive;
use crate::build_table::{
    BuildTableFromModels, BuildView, Capability, add_column, add_index, all_placed, extends,
    index_ready, lemma_add_column, lemma_extends_refl, lemma_extends_trans, lemma_ready, map_model,
    placed, primitive_field, put_model, same_but_for, storable, storage_name,
};
use crate::db::{
    Column, ColumnId, ColumnView, IndexColumn, IndexOp, IndexScope, IndexView, StorageType,
    TableView,
};
use crate::mapping::ModelView;
use crate::stmt::{Expr, Type, Value};
use vstd::prelude::*;
use vstd::utf8::encode_utf8;

verus! {

/// The number of bytes of a model's name in camel case.
pub open spec fn name_size(model: Model) -> usize {
    encode_utf8(model.name.camel_case@).len() as usize
}

/// The larger of two numbers.
pub open spec fn larger(a: usize, b: usize) -> usize {
    if a < b {
        b
    } else {
        a
    }
}

/// The number of bytes of the longest name in camel case.
pub open spec fn longest_name(models: Seq<&Model>) -> usize
    decreases models.len(),
{
    if models.len() == 0 {
        0
    } else {
        larger(longest_name(models.drop_last()), name_size(*models.last()))
    }
}

/// How many of the indices are over the primary key.
pub open spec fn key_index_count(indices: Seq<IndexView>) -> nat
    decreases indices.len(),
{
    if indices.len() == 0 {
        0
    } else {
        key_index_count(indices.drop_last()) + if indices.last().primary_key {
            1nat
        } else {
            0nat
        }
    }
}

/// The place of the first index over the primary key.
pub open spec fn key_index_place(indices: Seq<IndexView>) -> Option<int>
    decreases indices.len(),
{
    if indices.len() == 0 {
        None
    } else {
        match key_index_place(indices.drop_last()) {
            Some(i) => Some(i),
            None => if indices.last().primary_key {
                Some(indices.len() - 1)
            } else {
                None
            },
        }
    }
}

/// The table with one more column in the primary key and in the index over it.
pub open spec fn with_key_column(table: TableView, column: IndexColumn) -> TableView {
    let place = key_index_place(table.indices)->0;
    let index = table.indices[place];
    TableView {
        key_columns: table.key_columns.push(column.column),
        indices: table.indices.update(
            place,
            IndexView { columns: index.columns.push(column), ..index },
        ),
        ..table
    }
}

/// The column that holds the name of the model that a row belongs to.
///
/// It is as wide as the longest of the names.
pub open spec fn model_column(
    table: TableView,
    db: Capability,
    root: Model,
    children: Seq<&Model>,
) -> ColumnView {
    ColumnView {
        id: ColumnId { table: table.id, index: table.columns.len() as usize },
        name: "__model"@,
        ty: db.varchar_ty,
        storage_ty: StorageType::VarChar(larger(name_size(root), longest_name(children)) as u64),
        nullable: false,
        primary_key: true,
    }
}

/// The table with a column for the model name, which is part of the local key.
pub open spec fn with_model_column(
    table: TableView,
    db: Capability,
    root: Model,
    children: Seq<&Model>,
) -> TableView {
    let column = model_column(table, db, root, children);
    with_key_column(
        TableView { columns: table.columns.push(column), ..table },
        IndexColumn { column: column.id, op: IndexOp::Eq, scope: IndexScope::Local },
    )
}

/// A field of a child: one that is linked to a parent's field shares its
/// column, any other primitive field gets a column of its own. Such columns are
/// always nullable.
pub open spec fn child_field(
    s: BuildView,
    model: ModelId,
    field: Field,
    prefix: Seq<char>,
) -> BuildView {
    let mapping = s.mapping[model];
    if mapping.is_linked(field.id) {
        let parent = mapping.parent_field(field.id);
        put_model(
            s,
            model,
            mapping.with_column(
                field.id.index as int,
                s.mapping[parent.model].column_of(parent.index as int),
            ),
        )
    } else {
        match field.ty {
            FieldTy::Primitive(primitive) => add_column(
                s,
                field.id,
                primitive,
                storage_name(Some(prefix), field.name@),
                true,
            ),
            _ => s,
        }
    }
}

/// The fields of a child, one after the other.
pub open spec fn child_fields(
    s: BuildView,
    model: ModelId,
    fields: Seq<Field>,
    prefix: Seq<char>,
) -> BuildView
    decreases fields.len(),
{
    if fields.len() == 0 {
        s
    } else {
        child_field(child_fields(s, model, fields.drop_last(), prefix), model, fields.last(), prefix)
    }
}

/// A field of a child's primary key.
///
/// One that is linked to a parent's field is in the table's key already. Any
/// other becomes part of the local key, and the root's mapping sets it to null.
pub open spec fn child_key_field(
    s: BuildView,
    model: ModelId,
    root: ModelId,
    field: app::IndexField,
) -> BuildView {
    if s.mapping[model].is_linked(field.field) {
        s
    } else {
        let column = s.mapping[model].column_of(field.field.index as int);
        let root_mapping = s.mapping[root];
        BuildView {
            table: with_key_column(
                s.table,
                IndexColumn { column, op: field.op, scope: IndexScope::Local },
            ),
            mapping: s.mapping.insert(
                root,
                ModelView {
                    columns: root_mapping.columns.push(column),
                    model_to_table: root_mapping.model_to_table.push(Expr::Value(Value::Null)),
                    ..root_mapping
                },
            ),
        }
    }
}

/// The fields of a child's primary key, one after the other.
pub open spec fn child_key_fields(
    s: BuildView,
    model: ModelId,
    root: ModelId,
    fields: Seq<app::IndexField>,
) -> BuildView
    decreases fields.len(),
{
    if fields.len() == 0 {
        s
    } else {
        child_key_field(
            child_key_fields(s, model, root, fields.drop_last()),
            model,
            root,
            fields.last(),
        )
    }
}

/// An index of a child: its primary key extends the table's, any other index is added.
pub open spec fn child_index(
    s: BuildView,
    model: ModelId,
    root: ModelId,
    index: app::Index,
) -> BuildView {
    if index.primary_key {
        child_key_fields(s, model, root, index.fields@)
    } else {
        add_index(s, model, index)
    }
}

/// The indices of a child, one after the other.
pub open spec fn child_indices(
    s: BuildView,
    model: ModelId,
    root: ModelId,
    indices: Seq<app::Index>,
) -> BuildView
    decreases indices.len(),
{
    if indices.len() == 0 {
        s
    } else {
        child_index(
            child_indices(s, model, root, indices.drop_last()),
            model,
            root,
            indices.last(),
        )
    }
}

/// The state once a child is in the table.
pub open spec fn add_child(s: BuildView, model: Model, root: ModelId) -> BuildView {
    let columns = child_fields(s, model.id, model.fields@, model.name.snake_case@);
    child_indices(map_model(columns, model), model.id, root, model.indices@)
}

/// Whether every column of every index is a column of the table.
pub open spec fn indexed(table: TableView) -> bool {
    forall|i: int, j: int|
        0 <= i < table.indices.len() && 0 <= j < table.indices[i].columns.len()
            ==> table.has_column((#[trigger] table.indices[i].columns[j]).column)
}

/// Whether a child's field can be given a column once `parents` have theirs.
pub open spec fn child_field_ready(s: BuildView, model: ModelId, field: Field) -> bool {
    let mapping = s.mapping[model];
    if mapping.is_linked(field.id) {
        let parent = mapping.parent_field(field.id);
        &&& mapping.stores(field.id.index as int)
        &&& placed(s, parent.model, parent.index as int)
        &&& field.ty matches FieldTy::Primitive(primitive) ==> primitive.ty != Type::Null
    } else {
        storable(s.mapping, field)
    }
}

/// Whether a child's index is over primitive fields; in a primary key, linked
/// fields are left aside.
pub open spec fn child_index_ready(mapping: ModelView, model: Model, index: app::Index) -> bool {
    forall|i: int|
        0 <= i < index.fields@.len() ==> (primitive_field(model, #[trigger] index.fields@[i]) || (
        index.primary_key && mapping.is_linked(index.fields@[i].field)))
}

/// Whether a model can be added as a child.
pub open spec fn child_ready(s: BuildView, model: Model) -> bool {
    &&& app::fields_numbered(model)
    &&& s.mapping.contains_key(model.id)
    &&& has_primitive(model.fields@)
    &&& forall|i: int|
        0 <= i < model.fields@.len() ==> child_field_ready(
            s,
            model.id,
            #[trigger] model.fields@[i],
        )
    &&& forall|i: int|
        0 <= i < model.indices@.len() ==> child_index_ready(
            s.mapping[model.id],
            model,
            #[trigger] model.indices@[i],
        )
}

pub proof fn lemma_key_index_place(indices: Seq<IndexView>)
    ensures
        match key_index_place(indices) {
            Some(i) => {
                &&& 0 <= i < indices.len()
                &&& indices[i].primary_key
                &&& forall|j: int| 0 <= j < i ==> !(#[trigger] indices[j]).primary_key
            },
            None => forall|j: int| 0 <= j < indices.len() ==> !(#[trigger] indices[j]).primary_key,
        },
        key_index_count(indices) > 0 <==> key_index_place(indices) is Some,
    decreases indices.len(),
{
    if indices.len() > 0 {
        let rest = indices.drop_last();
        lemma_key_index_place(rest);
        match key_index_place(rest) {
            Some(i) => {
                assert(rest[i] == indices[i]);
                assert forall|j: int| 0 <= j < i implies !(#[trigger] indices[j]).primary_key by {
                    assert(rest[j] == indices[j]);
                }
            },
            None => {
                assert forall|j: int| 0 <= j < rest.len() implies !(
                #[trigger] indices[j]).primary_key by {
                    assert(rest[j] == indices[j]);
                }
            },
        }
    }
}

pub proof fn lemma_key_index_kept(s: Seq<IndexView>, t: Seq<IndexView>)
    requires
        key_index_place(s) is Some,
        s.len() <= t.len(),
        forall|j: int| 0 <= j < s.len() ==> (#[trigger] t[j]).primary_key == s[j].primary_key,
    ensures
        key_index_place(t) == key_index_place(s),
{
    lemma_key_index_place(s);
    lemma_key_index_place(t);
    let i = key_index_place(s)->0;
    assert(t[i].primary_key);
    let k = key_index_place(t)->0;
    if k < i {
        assert(!s[k].primary_key);
    } else if i < k {
        assert(!t[i].primary_key);
    }
}

/// Adding a column to the key keeps every index and its place.
pub proof fn lemma_with_key_column(table: TableView, column: IndexColumn)
    requires
        key_index_place(table.indices) is Some,
    ensures
        key_index_place(with_key_column(table, column).indices) == key_index_place(table.indices),
        indexed(table) && table.has_column(column.column) ==> indexed(
            with_key_column(table, column),
        ),
{
    lemma_key_index_place(table.indices);
    let t = with_key_column(table, column);
    lemma_key_index_kept(table.indices, t.indices);
    if indexed(table) && table.has_column(column.column) {
        assert forall|i: int, j: int|
            0 <= i < t.indices.len() && 0 <= j < t.indices[i].columns.len() implies t.has_column(
            (#[trigger] t.indices[i].columns[j]).column,
        ) by {
            if j < table.indices[i].columns.len() {
                assert(table.has_column(table.indices[i].columns[j].column));
            }
        }
    }
}

impl<'a> BuildTableFromModels<'a> {
    /// The place of the first index over the primary key.
    fn find_key_index(&self) -> (r: usize)
        requires
            key_index_place(self.state().table.indices) is Some,
        ensures
            key_index_place(self.state().table.indices) == Some(r as int),
            r < self.state().table.indices.len(),
    {
        let ghost indices = self.table@.indices;
        proof {
            lemma_key_index_place(indices);
        }
        let n: usize = self.table.indices.len();
        let mut i: usize = 0;
        while !self.table.indices[i].primary_key
            invariant
                indices == self.table@.indices,
                n == indices.len(),
                i < n,
                forall|j: int| 0 <= j < i ==> !(#[trigger] indices[j]).primary_key,
                match key_index_place(indices) {
                    Some(k) => i <= k < n && indices[k].primary_key,
                    None => false,
                },
            decreases n - i,
        {
            assert(!indices[i as int].primary_key);
            i = i + 1;
        }
        proof {
            assert(indices[i as int].primary_key);
            lemma_key_index_place(indices);
        }
        i
    }

    /// Adds a column to the primary key and to the index over it.
    fn push_key_column(&mut self, column: IndexColumn)
        requires
            key_index_place(old(self).state().table.indices) is Some,
        ensures
            final(self).state() == (BuildView {
                table: with_key_column(old(self).state().table, column),
                ..old(self).state()
            }),
            final(self).db == old(self).db,
            final(self).prefix_table_names == old(self).prefix_table_names,
            *final(final(self).table) == *final(old(self).table),
            *final(final(self).mapping) == *final(old(self).mapping),
    {
        let ghost s = self.state();
        let place: usize = self.find_key_index();
        self.table.indices[place].columns.push(column);
        self.table.primary_key.columns.push(column.column);
        proof {
            let t = with_key_column(s.table, column);
            assert(self.state().table.columns =~= t.columns);
            assert(self.state().table.indices[place as int] =~= t.indices[place as int]);
            assert(self.state().table.indices =~= t.indices);
        }
    }

    /// Adds a column for the model name, if the table holds children.
    pub fn map_model_column(&mut self, model: &Model, item_collection_children: &Vec<&Model>) -> (r:
        Option<ColumnId>)
        requires
            item_collection_children@.len() > 0 ==> key_index_count(
                old(self).state().table.indices,
            ) == 1,
        ensures
            ({
                let s = old(self).state();
                let children = item_collection_children@;
                if children.len() == 0 {
                    r is None && final(self).state() == s
                } else {
                    &&& r == Some(model_column(s.table, *old(self).db, *model, children).id)
                    &&& final(self).state() == (BuildView {
                        table: with_model_column(s.table, *old(self).db, *model, children),
                        ..s
                    })
                    &&& s.table.columns.len() < usize::MAX
                }
            }),
            final(self).db == old(self).db,
            final(self).prefix_table_names == old(self).prefix_table_names,
            *final(final(self).table) == *final(old(self).table),
            *final(final(self).mapping) == *final(old(self).mapping),
    {
        if item_collection_children.len() == 0 {
            return None;
        }
        let ghost s = self.state();
        let mut widest: usize = 0;
        let mut i: usize = 0;
        assert(item_collection_children@.take(0) =~= Seq::<&Model>::empty());
        while i < item_collection_children.len()
            invariant
                i <= item_collection_children@.len(),
                widest == longest_name(item_collection_children@.take(i as int)),
            decreases item_collection_children@.len() - i,
        {
            let size: usize = item_collection_children[i].name.camel_case().as_str().len();
            proof {
                assert(item_collection_children@.take(i + 1).drop_last()
                    =~= item_collection_children@.take(i as int));
            }
            if widest < size {
                widest = size;
            }
            i = i + 1;
        }
        assert(item_collection_children@.take(i as int) =~= item_collection_children@);
        let size: usize = model.name.camel_case().as_str().len();
        if size > widest {
            widest = size;
        }
        let column_id = ColumnId { table: self.table.id, index: self.table.columns.len() };
        let column = Column {
            id: column_id,
            name: "__model".to_string(),
            ty: self.db.varchar_ty,
            storage_ty: StorageType::VarChar(widest as u64),
            nullable: false,
            primary_key: true,
        };
        let ghost added = column@;
        self.table.columns.push(column);
        assert(self.table.columns.len() == self.table@.columns.len());
        proof {
            assert(added == model_column(s.table, *self.db, *model, item_collection_children@));
            assert(self.state().table.columns =~= s.table.columns.push(added));
            assert(self.state().table.indices =~= s.table.indices);
            lemma_key_index_place(s.table.indices);
        }
        // add the column to the PK index
        self.push_key_column(
            IndexColumn { column: column_id, op: IndexOp::Eq, scope: IndexScope::Local },
        );
        Some(column_id)
    }

    /// The column of the parent's field that a child's field is linked to.
    pub fn find_item_collection_parent_column(&self, field: &Field, model: &Model) -> (r: Option<
        ColumnId,
    >)
        requires
            self.state().mapping.contains_key(model.id),
            self.state().mapping[model.id].is_linked(field.id) ==> {
                let parent = self.state().mapping[model.id].parent_field(field.id);
                &&& self.state().mapping.contains_key(parent.model)
                &&& self.state().mapping[parent.model].stores(parent.index as int)
            },
        ensures
            r == (if self.state().mapping[model.id].is_linked(field.id) {
                let parent = self.state().mapping[model.id].parent_field(field.id);
                Some(self.state().mapping[parent.model].column_of(parent.index as int))
            } else {
                None
            }),
    {
        match self.mapping.model(model.id).item_collection.parent_field(field.id) {
            Some(parent) => Some(self.mapping.model(parent.model).column_of(parent.index)),
            None => None,
        }
    }
}

/// What can be given a column stays so while the table grows.
pub proof fn lemma_child_field_ready(s: BuildView, t: BuildView, model: ModelId, field: Field)
    requires
        extends(s, t),
        s.mapping.contains_key(model),
        field.id.model == model,
        child_field_ready(s, model, field),
    ensures
        child_field_ready(t, model, field),
{
    if s.mapping[model].stores(field.id.index as int) {
        assert(t.mapping[model].stores(field.id.index as int));
    }
    if s.mapping[model].is_linked(field.id) {
        let parent = s.mapping[model].parent_field(field.id);
        assert(placed(t, parent.model, parent.index as int));
    }
}

pub proof fn lemma_child_field(s: BuildView, model: ModelId, field: Field, prefix: Seq<char>)
    requires
        s.mapping.contains_key(model),
        field.id.model == model,
        child_field_ready(s, model, field),
        child_field(s, model, field, prefix).table.columns.len() <= usize::MAX,
    ensures
        ({
            let t = child_field(s, model, field, prefix);
            &&& extends(s, t)
            &&& field.ty is Primitive ==> placed(t, model, field.id.index as int)
            &&& same_but_for(s, t, model)
            &&& t.table.indices == s.table.indices
            &&& t.table.key_columns == s.table.key_columns
            &&& t.table.key_index == s.table.key_index
        }),
{
    let t = child_field(s, model, field, prefix);
    if s.mapping[model].is_linked(field.id) {
        let parent = s.mapping[model].parent_field(field.id);
        assert(t.mapping.dom() =~= s.mapping.dom());
        assert forall|m: ModelId, i: int| placed(s, m, i) implies #[trigger] placed(t, m, i) by {}
        assert(extends(s, t));
    } else {
        match field.ty {
            FieldTy::Primitive(primitive) => {
                lemma_add_column(
                    s,
                    field.id,
                    primitive,
                    storage_name(Some(prefix), field.name@),
                    true,
                );
            },
            _ => {
                lemma_extends_refl(s);
            },
        }
    }
}

pub proof fn lemma_child_fields(
    s: BuildView,
    model: ModelId,
    fields: Seq<Field>,
    prefix: Seq<char>,
)
    requires
        s.mapping.contains_key(model),
        child_fields(s, model, fields, prefix).table.columns.len() <= usize::MAX,
        forall|i: int|
            0 <= i < fields.len() ==> (#[trigger] fields[i]).id.model == model
                && child_field_ready(s, model, fields[i]),
    ensures
        ({
            let t = child_fields(s, model, fields, prefix);
            &&& extends(s, t)
            &&& all_placed(t, fields)
            &&& same_but_for(s, t, model)
            &&& t.table.indices == s.table.indices
            &&& t.table.key_columns == s.table.key_columns
            &&& t.table.key_index == s.table.key_index
        }),
    decreases fields.len(),
{
    if fields.len() == 0 {
        lemma_extends_refl(s);
    } else {
        let rest = fields.drop_last();
        let field = fields.last();
        let u = child_fields(s, model, rest, prefix);
        let t = child_fields(s, model, fields, prefix);
        assert forall|i: int| 0 <= i < rest.len() implies (#[trigger] rest[i]).id.model == model
            && child_field_ready(s, model, rest[i]) by {
            assert(rest[i] == fields[i]);
        }
        lemma_child_fields(s, model, rest, prefix);
        assert(fields[fields.len() - 1].id.model == model);
        lemma_child_field_ready(s, u, model, field);
        lemma_child_field(u, model, field, prefix);
        lemma_extends_trans(s, u, t);
        assert forall|i: int|
            0 <= i < fields.len() && (#[trigger] fields[i]).ty is Primitive implies placed(
            t,
            fields[i].id.model,
            fields[i].id.index as int,
        ) by {
            if i < rest.len() {
                assert(rest[i] == fields[i]);
                assert(placed(u, rest[i].id.model, rest[i].id.index as int));
            }
        }
    }
}

pub proof fn lemma_child_key_field(
    s: BuildView,
    model: ModelId,
    root: ModelId,
    field: app::IndexField,
)
    requires
        s.mapping.contains_key(root),
        key_index_place(s.table.indices) is Some,
        s.mapping[model].is_linked(field.field) || placed(s, model, field.field.index as int),
    ensures
        ({
            let t = child_key_field(s, model, root, field);
            &&& extends(s, t)
            &&& same_but_for(s, t, root)
            &&& t.mapping[root].fields == s.mapping[root].fields
            &&& t.table.columns == s.table.columns
            &&& t.table.key_index == s.table.key_index
            &&& key_index_place(t.table.indices) is Some
            &&& indexed(s.table) ==> indexed(t.table)
        }),
{
    let t = child_key_field(s, model, root, field);
    if s.mapping[model].is_linked(field.field) {
        lemma_extends_refl(s);
    } else {
        let column = s.mapping[model].column_of(field.field.index as int);
        lemma_with_key_column(
            s.table,
            IndexColumn { column, op: field.op, scope: IndexScope::Local },
        );
        assert(t.mapping.dom() =~= s.mapping.dom());
        assert forall|m: ModelId, i: int| placed(s, m, i) implies #[trigger] placed(t, m, i) by {}
        assert(extends(s, t));
    }
}

pub proof fn lemma_child_key_fields(
    s: BuildView,
    model: ModelId,
    root: ModelId,
    fields: Seq<app::IndexField>,
)
    requires
        s.mapping.contains_key(model),
        s.mapping.contains_key(root),
        key_index_place(s.table.indices) is Some,
        forall|i: int|
            0 <= i < fields.len() ==> (s.mapping[model].is_linked((#[trigger] fields[i]).field)
                || placed(s, model, fields[i].field.index as int)),
    ensures
        ({
            let t = child_key_fields(s, model, root, fields);
            &&& extends(s, t)
            &&& same_but_for(s, t, root)
            &&& t.mapping[root].fields == s.mapping[root].fields
            &&& t.table.columns == s.table.columns
            &&& t.table.key_index == s.table.key_index
            &&& key_index_place(t.table.indices) is Some
            &&& indexed(s.table) ==> indexed(t.table)
        }),
    decreases fields.len(),
{
    if fields.len() == 0 {
        lemma_extends_refl(s);
    } else {
        let rest = fields.drop_last();
        let u = child_key_fields(s, model, root, rest);
        let t = child_key_fields(s, model, root, fields);
        assert forall|i: int| 0 <= i < rest.len() implies (s.mapping[model].is_linked(
            (#[trigger] rest[i]).field,
        ) || placed(s, model, rest[i].field.index as int)) by {
            assert(rest[i] == fields[i]);
        }
        lemma_child_key_fields(s, model, root, rest);
        let field = fields[fields.len() - 1];
        if !s.mapping[model].is_linked(field.field) {
            assert(placed(u, model, field.field.index as int));
        }
        lemma_child_key_field(u, model, root, field);
        lemma_extends_trans(s, u, t);
    }
}

/// A new index over columns of the table changes nothing else.
pub proof fn lemma_add_index(s: BuildView, model: Model, index: app::Index)
    requires
        app::fields_numbered(model),
        all_placed(s, model.fields@),
        index_ready(model, index),
    ensures
        ({
            let t = add_index(s, model.id, index);
            &&& extends(s, t)
            &&& t.mapping == s.mapping
            &&& t.table.columns == s.table.columns
            &&& t.table.key_index == s.table.key_index
            &&& key_index_place(s.table.indices) is Some ==> key_index_place(t.table.indices) is Some
            &&& key_index_count(t.table.indices) == key_index_count(s.table.indices) + if index.primary_key {
                1nat
            } else {
                0nat
            }
            &&& indexed(s.table) ==> indexed(t.table)
        }),
{
    let t = add_index(s, model.id, index);
    assert forall|m: ModelId, i: int| placed(s, m, i) implies #[trigger] placed(t, m, i) by {}
    assert(extends(s, t));
    if key_index_place(s.table.indices) is Some {
        lemma_key_index_kept(s.table.indices, t.table.indices);
    }
    assert(t.table.indices.drop_last() =~= s.table.indices);
    if indexed(s.table) {
        assert forall|i: int, j: int|
            0 <= i < t.table.indices.len() && 0 <= j < t.table.indices[i].columns.len() implies t.table.has_column(
            (#[trigger] t.table.indices[i].columns[j]).column,
        ) by {
            if i < s.table.indices.len() {
                assert(s.table.has_column(s.table.indices[i].columns[j].column));
            } else {
                assert(primitive_field(model, index.fields@[j]));
                let field = model.fields@[index.fields@[j].field.index as int];
                assert(placed(s, field.id.model, field.id.index as int));
            }
        }
    }
}

pub proof fn lemma_child_indices(s: BuildView, model: Model, root: ModelId, indices: Seq<app::Index>)
    requires
        app::fields_numbered(model),
        s.mapping.contains_key(model.id),
        s.mapping.contains_key(root),
        all_placed(s, model.fields@),
        indices.len() > 0 ==> key_index_place(s.table.indices) is Some,
        forall|i: int|
            0 <= i < indices.len() ==> child_index_ready(
                s.mapping[model.id],
                model,
                #[trigger] indices[i],
            ),
    ensures
        ({
            let t = child_indices(s, model.id, root, indices);
            &&& extends(s, t)
            &&& same_but_for(s, t, root)
            &&& t.mapping[root].fields == s.mapping[root].fields
            &&& t.table.columns == s.table.columns
            &&& t.table.key_index == s.table.key_index
            &&& key_index_place(s.table.indices) is Some ==> key_index_place(t.table.indices) is Some
            &&& indexed(s.table) ==> indexed(t.table)
        }),
    decreases indices.len(),
{
    if indices.len() == 0 {
        lemma_extends_refl(s);
    } else {
        let rest = indices.drop_last();
        let u = child_indices(s, model.id, root, rest);
        let t = child_indices(s, model.id, root, indices);
        assert forall|i: int| 0 <= i < rest.len() implies child_index_ready(
            s.mapping[model.id],
            model,
            #[trigger] rest[i],
        ) by {
            assert(rest[i] == indices[i]);
        }
        lemma_child_indices(s, model, root, rest);
        let index = indices[indices.len() - 1];
        assert(child_index_ready(s.mapping[model.id], model, index));
        lemma_all_placed(s, u, model.fields@);
        lemma_child_index(u, model, root, index);
        lemma_extends_trans(s, u, t);
    }
}

/// Fields that have a column keep one while the table grows.
pub proof fn lemma_all_placed(s: BuildView, t: BuildView, fields: Seq<Field>)
    requires
        extends(s, t),
        all_placed(s, fields),
    ensures
        all_placed(t, fields),
{
    assert forall|i: int| 0 <= i < fields.len() && (#[trigger] fields[i]).ty is Primitive implies placed(
        t,
        fields[i].id.model,
        fields[i].id.index as int,
    ) by {
        assert(placed(s, fields[i].id.model, fields[i].id.index as int));
    }
}

pub proof fn lemma_child_index(s: BuildView, model: Model, root: ModelId, index: app::Index)
    requires
        app::fields_numbered(model),
        s.mapping.contains_key(model.id),
        s.mapping.contains_key(root),
        all_placed(s, model.fields@),
        key_index_place(s.table.indices) is Some,
        child_index_ready(s.mapping[model.id], model, index),
    ensures
        ({
            let t = child_index(s, model.id, root, index);
            &&& extends(s, t)
            &&& same_but_for(s, t, root)
            &&& t.mapping[root].fields == s.mapping[root].fields
            &&& t.table.columns == s.table.columns
            &&& t.table.key_index == s.table.key_index
            &&& key_index_place(t.table.indices) is Some
            &&& indexed(s.table) ==> indexed(t.table)
        }),
{
    if index.primary_key {
        assert forall|i: int| 0 <= i < index.fields@.len() implies (s.mapping[model.id].is_linked(
            (#[trigger] index.fields@[i]).field,
        ) || placed(s, model.id, index.fields@[i].field.index as int)) by {
            if !s.mapping[model.id].is_linked(index.fields@[i].field) {
                assert(primitive_field(model, index.fields@[i]));
                let field = model.fields@[index.fields@[i].field.index as int];
                assert(placed(s, field.id.model, field.id.index as int));
            }
        }
        lemma_child_key_fields(s, model.id, root, index.fields@);
    } else {
        assert(index_ready(model, index)) by {
            assert forall|i: int| 0 <= i < index.fields@.len() implies primitive_field(
                model,
                #[trigger] index.fields@[i],
            ) by {}
        }
        lemma_add_index(s, model, index);
    }
}

impl<'a> BuildTableFromModels<'a> {
    /// Adds the columns and the indices of a child to the table of its root, and maps it.
    pub fn map_item_collection_child(&mut self, model: &Model, root: &Model)
        requires
            child_ready(old(self).state(), *model),
            old(self).state().mapping.contains_key(root.id),
            model.indices@.len() > 0 ==> key_index_place(old(self).state().table.indices) is Some,
        ensures
            final(self).state() == add_child(old(self).state(), *model, root.id),
            final(self).state().table.columns.len() <= usize::MAX,
            final(self).db == old(self).db,
            final(self).prefix_table_names == old(self).prefix_table_names,
            *final(final(self).table) == *final(old(self).table),
            *final(final(self).mapping) == *final(old(self).mapping),
    {
        let prefix = model.name.snake_case();
        let ghost start = self.state();
        let ghost fields = model.fields@;

        // First, populate columns
        assert(self.table.columns.len() == self.table@.columns.len());
        let mut i: usize = 0;
        assert(fields.take(0) =~= Seq::<Field>::empty());
        while i < model.fields.len()
            invariant
                i <= fields.len(),
                fields == model.fields@,
                start == old(self).state(),
                child_ready(start, *model),
                prefix@ == model.name.snake_case@,
                self.state() == child_fields(start, model.id, fields.take(i as int), prefix@),
                self.state().table.columns.len() <= usize::MAX,
                self.db == old(self).db,
                self.prefix_table_names == old(self).prefix_table_names,
                *final(self.table) == *final(old(self).table),
                *final(self.mapping) == *final(old(self).mapping),
            decreases fields.len() - i,
        {
            let field = &model.fields[i];
            proof {
                let done = fields.take(i as int);
                assert forall|k: int| 0 <= k < done.len() implies (#[trigger] done[k]).id.model
                    == model.id && child_field_ready(start, model.id, done[k]) by {
                    assert(done[k] == model.fields@[k]);
                }
                lemma_child_fields(start, model.id, done, prefix@);
                assert(child_field_ready(start, model.id, model.fields@[i as int]));
                lemma_child_field_ready(start, self.state(), model.id, *field);
                assert(fields.take(i + 1).drop_last() =~= done);
            }
            match self.find_item_collection_parent_column(field, model) {
                Some(parent) => {
                    // this field maps to a parent model's field, so use the same column for both
                    self.mapping.model_mut(model.id).set_column(field.id.index, parent);
                },
                None => {
                    match &field.ty {
                        FieldTy::Primitive(simple) => {
                            self.create_column_for_primitive(
                                field.id,
                                simple,
                                field.name.as_str(),
                                Some(prefix.as_str()),
                                true,  // child fields are always nullable
                            );
                        },
                        // Relations do not have columns
                        FieldTy::BelongsTo(_) | FieldTy::HasMany(_) | FieldTy::HasOne(_) => {},
                    }
                },
            }
            assert(self.table.columns.len() == self.table@.columns.len());
            i = i + 1;
        }
        proof {
            assert(fields.take(i as int) =~= fields);
            let s = self.state();
            assert forall|k: int| 0 <= k < fields.len() implies (#[trigger] fields[k]).id.model
                == model.id && child_field_ready(start, model.id, fields[k]) by {
                assert(fields[k] == model.fields@[k]);
            }
            lemma_child_fields(start, model.id, fields, prefix@);
            assert forall|k: int| 0 <= k < fields.len() implies ((
            #[trigger] model.fields@[k]).ty matches FieldTy::Primitive(p) ==> p.ty != Type::Null) by {
                assert(child_field_ready(start, model.id, model.fields@[k]));
            }
            lemma_ready(s, *model);
        }
        let ghost columns = self.state();
        self.map_columns(model);
        proof {
            let s = self.state();
            lemma_all_placed(columns, s, fields);
            assert forall|k: int| 0 <= k < model.indices@.len() implies child_index_ready(
                s.mapping[model.id],
                *model,
                #[trigger] model.indices@[k],
            ) by {
                let index = model.indices@[k];
                assert(child_index_ready(start.mapping[model.id], *model, index));
                assert forall|j: int| 0 <= j < index.fields@.len() implies (primitive_field(
                    *model,
                    #[trigger] index.fields@[j],
                ) || (index.primary_key && s.mapping[model.id].is_linked(index.fields@[j].field))) by {}
            }
            lemma_child_indices(s, *model, root.id, model.indices@);
        }
        self.populate_child_model_indices(model, root);
    }

    /// Adds the indices of a child, whose primary key extends the table's.
    pub fn populate_child_model_indices(&mut self, model: &Model, root: &Model)
        requires
            app::fields_numbered(*model),
            old(self).state().mapping.contains_key(model.id),
            old(self).state().mapping.contains_key(root.id),
            all_placed(old(self).state(), model.fields@),
            model.indices@.len() > 0 ==> key_index_place(old(self).state().table.indices) is Some,
            forall|i: int|
                0 <= i < model.indices@.len() ==> child_index_ready(
                    old(self).state().mapping[model.id],
                    *model,
                    #[trigger] model.indices@[i],
                ),
        ensures
            final(self).state() == child_indices(
                old(self).state(),
                model.id,
                root.id,
                model.indices@,
            ),
            final(self).db == old(self).db,
            final(self).prefix_table_names == old(self).prefix_table_names,
            *final(final(self).table) == *final(old(self).table),
            *final(final(self).mapping) == *final(old(self).mapping),
    {
        let ghost start = self.state();
        let ghost indices = model.indices@;
        let mut i: usize = 0;
        assert(indices.take(0) =~= Seq::<app::Index>::empty());
        while i < model.indices.len()
            invariant
                i <= indices.len(),
                indices == model.indices@,
                start == old(self).state(),
                app::fields_numbered(*model),
                start.mapping.contains_key(model.id),
                start.mapping.contains_key(root.id),
                all_placed(start, model.fields@),
                indices.len() > 0 ==> key_index_place(start.table.indices) is Some,
                forall|k: int|
                    0 <= k < indices.len() ==> child_index_ready(
                        start.mapping[model.id],
                        *model,
                        #[trigger] indices[k],
                    ),
                self.state() == child_indices(start, model.id, root.id, indices.take(i as int)),
                self.db == old(self).db,
                self.prefix_table_names == old(self).prefix_table_names,
                *final(self.table) == *final(old(self).table),
                *final(self.mapping) == *final(old(self).mapping),
            decreases indices.len() - i,
        {
            let model_index = &model.indices[i];
            proof {
                let done = indices.take(i as int);
                assert forall|k: int| 0 <= k < done.len() implies child_index_ready(
                    start.mapping[model.id],
                    *model,
                    #[trigger] done[k],
                ) by {
                    assert(done[k] == indices[k]);
                }
                lemma_child_indices(start, *model, root.id, done);
                lemma_all_placed(start, self.state(), model.fields@);
                assert(indices.take(i + 1).drop_last() =~= done);
                assert(child_index_ready(start.mapping[model.id], *model, indices[i as int]));
            }
            if model_index.primary_key {
                self.extend_key(model, model_index, root);
            } else {
                assert(model.fields.len() == model.fields@.len());
                proof {
                    assert forall|k: int|
                        0 <= k < model.fields@.len() && (
                        #[trigger] model.fields@[k]).ty is Primitive implies self.state().mapping[model.id].stores(
                    k) by {
                        assert(placed(
                            self.state(),
                            model.fields@[k].id.model,
                            model.fields@[k].id.index as int,
                        ));
                    }
                    assert forall|k: int| 0 <= k < model_index.fields@.len() implies primitive_field(
                        *model,
                        #[trigger] model_index.fields@[k],
                    ) by {}
                }
                self.push_model_index(model, model_index);
            }
            i = i + 1;
        }
        assert(indices.take(i as int) =~= indices);
    }

    /// Adds the fields of a child's primary key to the table's.
    fn extend_key(&mut self, model: &Model, model_index: &app::Index, root: &Model)
        requires
            app::fields_numbered(*model),
            old(self).state().mapping.contains_key(model.id),
            old(self).state().mapping.contains_key(root.id),
            all_placed(old(self).state(), model.fields@),
            key_index_place(old(self).state().table.indices) is Some,
            child_index_ready(old(self).state().mapping[model.id], *model, *model_index),
        ensures
            final(self).state() == child_key_fields(
                old(self).state(),
                model.id,
                root.id,
                model_index.fields@,
            ),
            final(self).db == old(self).db,
            final(self).prefix_table_names == old(self).prefix_table_names,
            *final(final(self).table) == *final(old(self).table),
            *final(final(self).mapping) == *final(old(self).mapping),
    {
        let ghost start = self.state();
        let ghost fields = model_index.fields@;
        proof {
            assert forall|k: int| 0 <= k < fields.len() implies (start.mapping[model.id].is_linked(
                (#[trigger] fields[k]).field,
            ) || placed(start, model.id, fields[k].field.index as int)) by {
                if !start.mapping[model.id].is_linked(fields[k].field) {
                    assert(primitive_field(*model, model_index.fields@[k]));
                    let field = model.fields@[fields[k].field.index as int];
                    assert(placed(start, field.id.model, field.id.index as int));
                }
            }
        }
        let mut i: usize = 0;
        assert(fields.take(0) =~= Seq::<app::IndexField>::empty());
        while i < model_index.fields.len()
            invariant
                i <= fields.len(),
                fields == model_index.fields@,
                start == old(self).state(),
                start.mapping.contains_key(model.id),
                start.mapping.contains_key(root.id),
                key_index_place(start.table.indices) is Some,
                forall|k: int|
                    0 <= k < fields.len() ==> (start.mapping[model.id].is_linked(
                        (#[trigger] fields[k]).field,
                    ) || placed(start, model.id, fields[k].field.index as int)),
                self.state() == child_key_fields(
                    start,
                    model.id,
                    root.id,
                    fields.take(i as int),
                ),
                self.db == old(self).db,
                self.prefix_table_names == old(self).prefix_table_names,
                *final(self.table) == *final(old(self).table),
                *final(self.mapping) == *final(old(self).mapping),
            decreases fields.len() - i,
        {
            let index_field = model_index.fields[i];
            proof {
                let done = fields.take(i as int);
                assert forall|k: int| 0 <= k < done.len() implies (
                start.mapping[model.id].is_linked((#[trigger] done[k]).field) || placed(
                    start,
                    model.id,
                    done[k].field.index as int,
                )) by {
                    assert(done[k] == fields[k]);
                }
                lemma_child_key_fields(start, model.id, root.id, done);
                assert(fields.take(i + 1).drop_last() =~= done);
                assert(fields[i as int] == index_field);
                if !start.mapping[model.id].is_linked(index_field.field) {
                    assert(placed(start, model.id, index_field.field.index as int));
                    assert(placed(self.state(), model.id, index_field.field.index as int));
                }
            }
            // a linked field should already be in the index since it comes from the
            // parent model
            if !self.mapping.model(model.id).item_collection.is_linked(index_field.field) {
                let column = self.mapping.model(model.id).column_of(index_field.field.index);
                // all the parent columns go in the partition key, child columns go in the
                // local key / sort key
                self.push_key_column(
                    IndexColumn { column, op: index_field.op, scope: IndexScope::Local },
                );
                let root_mapping = self.mapping.model_mut(root.id);
                root_mapping.columns.push(column);
                root_mapping.model_to_table.push(Expr::null());
            }
            i = i + 1;
        }
        assert(fields.take(i as int) =~= fields);
    }
}

} // verus!

//! How models map to tables.

use crate::app::{FieldId, ModelId};
use crate::db::{ColumnId, TableId};
use crate::stmt::Expr;
use indexmap::IndexMap;
use vstd::prelude::*;

verus! {

/// The type `indexmap::IndexMap`.
#[verifier::external_type_specification]
#[verifier::external_body]
#[verifier::reject_recursive_types(K)]
#[verifier::reject_recursive_types(V)]
#[verifier::reject_recursive_types(S)]
pub struct ExIndexMap<K, V, S>(IndexMap<K, V, S>);

/// The entries of an `IndexMap`, each a key and its value, in their order.
pub uninterp spec fn index_map_entries(
    map: IndexMap<(usize, usize), (usize, usize)>,
) -> Seq<((usize, usize), (usize, usize))>;

/// The value of the first entry with the given key, if there is one.
pub open spec fn value_at(
    entries: Seq<((usize, usize), (usize, usize))>,
    key: (usize, usize),
) -> Option<(usize, usize)>
    decreases entries.len(),
{
    if entries.len() == 0 {
        None
    } else {
        match value_at(entries.drop_last(), key) {
            Some(value) => Some(value),
            None => if entries.last().0 == key {
                Some(entries.last().1)
            } else {
                None
            },
        }
    }
}

/// The entries with another value in those with the given key.
pub open spec fn with_value_at(
    entries: Seq<((usize, usize), (usize, usize))>,
    key: (usize, usize),
    value: (usize, usize),
) -> Seq<((usize, usize), (usize, usize))> {
    Seq::new(
        entries.len(),
        |i: int|
            if entries[i].0 == key {
                (key, value)
            } else {
                entries[i]
            },
    )
}

/// The entries with the value at the key: in the place of what was there, or else last.
pub open spec fn with_entry(
    entries: Seq<((usize, usize), (usize, usize))>,
    key: (usize, usize),
    value: (usize, usize),
) -> Seq<((usize, usize), (usize, usize))> {
    if value_at(entries, key) is Some {
        with_value_at(entries, key, value)
    } else {
        entries.push((key, value))
    }
}

/// A value that was put at a key is there, and the values at other keys stay.
pub proof fn lemma_with_entry(
    entries: Seq<((usize, usize), (usize, usize))>,
    key: (usize, usize),
    value: (usize, usize),
    other: (usize, usize),
)
    ensures
        value_at(with_entry(entries, key, value), other) == (if other == key {
            Some(value)
        } else {
            value_at(entries, other)
        }),
{
    if value_at(entries, key) is Some {
        lemma_replaced(entries, key, value, other);
    } else {
        assert(entries.push((key, value)).drop_last() =~= entries);
    }
}

proof fn lemma_replaced(
    entries: Seq<((usize, usize), (usize, usize))>,
    key: (usize, usize),
    value: (usize, usize),
    other: (usize, usize),
)
    ensures
        value_at(with_value_at(entries, key, value), other) == (if other != key {
            value_at(entries, other)
        } else if value_at(entries, key) is Some {
            Some(value)
        } else {
            None
        }),
    decreases entries.len(),
{
    if entries.len() > 0 {
        let rest = entries.drop_last();
        lemma_replaced(rest, key, value, other);
        assert(with_value_at(entries, key, value).drop_last() =~= with_value_at(rest, key, value));
    }
}

/// Calls `IndexMap::insert`, which puts the value at the key, in place of what
/// was there, or else behind all other entries, and leaves those as they were.
#[verifier::external_body]
fn index_map_insert(
    map: &mut IndexMap<(usize, usize), (usize, usize)>,
    key: (usize, usize),
    value: (usize, usize),
)
    ensures
        index_map_entries(*final(map)) == with_entry(index_map_entries(*old(map)), key, value),
{
    map.insert(key, value);
}

/// Calls `IndexMap::get`, which gives the value at the key, if there is one.
#[verifier::external_body]
fn index_map_get(map: &IndexMap<(usize, usize), (usize, usize)>, key: (usize, usize)) -> (r: Option<
    (usize, usize),
>)
    ensures
        r == value_at(index_map_entries(*map), key),
{
    map.get(&key).copied()
}

/// Calls `IndexMap::contains_key`, which tells whether there is a value at the key.
#[verifier::external_body]
fn index_map_contains_key(
    map: &IndexMap<(usize, usize), (usize, usize)>,
    key: (usize, usize),
) -> (r: bool)
    ensures
        r == value_at(index_map_entries(*map), key) is Some,
{
    map.contains_key(&key)
}

/// Calls `IndexMap::clone`, which copies the entries in their order.
#[verifier::external_body]
fn index_map_clone(map: &IndexMap<(usize, usize), (usize, usize)>) -> (r: IndexMap<
    (usize, usize),
    (usize, usize),
>)
    ensures
        index_map_entries(r) == index_map_entries(*map),
{
    map.clone()
}

/// A field identifier as a pair of numbers.
pub open spec fn field_key(id: FieldId) -> (usize, usize) {
    (id.model.0, id.index)
}

/// The field identifier that a pair of numbers stands for.
pub open spec fn key_field(key: (usize, usize)) -> FieldId {
    FieldId { model: ModelId(key.0), index: key.1 }
}

/// A model's place in an item collection.
#[derive(Debug)]
pub struct ItemCollection {
    /// Path to this model in the item collection hierarchy
    ///
    /// Used to guide how primary key values are computed at the table level.
    /// When the path is empty, this model is not part of a hierarchy so everything
    /// is as normal. When non-empty, the path must end with the model ID of this
    /// model. Each model in the path contributes PK fields which must be
    /// concatenated in a DB-engine-specific way so all models in the collection
    /// can share a table without any ambiguity as to which row belongs to which
    /// model.
    pub path: Vec<ModelId>,
    /// Mapping of this model's fields to parents in the collection
    ///
    /// Used during db schema building to capture relationship information prior to
    /// forming table columns and indices to encapsulate the app schema. Fields
    /// stand in it as pairs of model number and position.
    pub field_mapping: IndexMap<(usize, usize), (usize, usize)>,
    /// Column that contains the model name
    ///
    /// Only populated when the path is non-empty.
    pub model_column: Option<ColumnId>,
}

impl Clone for ItemCollection {
    fn clone(&self) -> (r: Self)
        ensures
            r.path@ == self.path@,
            index_map_entries(r.field_mapping) == index_map_entries(self.field_mapping),
            r.model_column == self.model_column,
    {
        let path = self.path.clone();
        assert(path@ =~= self.path@);
        ItemCollection {
            path,
            field_mapping: index_map_clone(&self.field_mapping),
            model_column: self.model_column,
        }
    }
}

impl ItemCollection {
    /// Records that `field` holds the same value as the parent's field `parent`.
    pub fn link(&mut self, field: FieldId, parent: FieldId)
        ensures
            index_map_entries(final(self).field_mapping) == with_entry(
                index_map_entries(old(self).field_mapping),
                field_key(field),
                field_key(parent),
            ),
            final(self).path == old(self).path,
            final(self).model_column == old(self).model_column,
    {
        index_map_insert(
            &mut self.field_mapping,
            (field.model.0, field.index),
            (parent.model.0, parent.index),
        );
    }

    /// The parent's field that `field` is linked to.
    pub fn parent_field(&self, field: FieldId) -> (r: Option<FieldId>)
        ensures
            r == match value_at(index_map_entries(self.field_mapping), field_key(field)) {
                Some(key) => Some(key_field(key)),
                None => None,
            },
    {
        match index_map_get(&self.field_mapping, (field.model.0, field.index)) {
            Some(key) => Some(FieldId { model: ModelId(key.0), index: key.1 }),
            None => None,
        }
    }

    /// Whether `field` is linked to a field of a parent.
    pub fn is_linked(&self, field: FieldId) -> (r: bool)
        ensures
            r == value_at(index_map_entries(self.field_mapping), field_key(field)) is Some,
    {
        index_map_contains_key(&self.field_mapping, (field.model.0, field.index))
    }
}

/// How one primitive field maps to its column.
#[derive(Clone, Copy, PartialEq, Eq, Structural, Debug)]
pub struct FieldMapping {
    pub column: ColumnId,
    /// Position of the field's expression in `model_to_table`
    pub lowering: usize,
}

/// How one model maps to its table.
#[derive(Debug)]
pub struct Model {
    pub id: ModelId,
    pub table: TableId,
    /// The columns that the model uses
    pub columns: Vec<ColumnId>,
    /// For each field of the model, how it is stored; relations are not
    pub fields: Vec<Option<FieldMapping>>,
    /// For each of `columns`, its value in terms of the model's fields
    pub model_to_table: Vec<Expr>,
    /// The primary key in terms of the model's key fields
    pub model_pk_to_table: Expr,
    /// For each field, its value in terms of columns
    pub table_to_model: Vec<Expr>,
    pub item_collection: ItemCollection,
}

/// An expression that is either a record of expressions or a single one.
pub enum KeyView {
    One(Expr),
    Record(Seq<Expr>),
}

/// What an expression says, with the operands of a record as a sequence.
pub open spec fn key_view(expr: Expr) -> KeyView {
    match expr {
        Expr::Record(exprs) => KeyView::Record(exprs@),
        _ => KeyView::One(expr),
    }
}

/// What a model's mapping says.
#[verifier::ext_equal]
pub struct ModelView {
    pub id: ModelId,
    pub table: TableId,
    pub columns: Seq<ColumnId>,
    pub fields: Seq<Option<FieldMapping>>,
    pub model_to_table: Seq<Expr>,
    pub model_pk_to_table: KeyView,
    pub table_to_model: Seq<Expr>,
    pub path: Seq<ModelId>,
    pub links: Seq<((usize, usize), (usize, usize))>,
    pub model_column: Option<ColumnId>,
}

impl View for Model {
    type V = ModelView;

    open spec fn view(&self) -> ModelView {
        ModelView {
            id: self.id,
            table: self.table,
            columns: self.columns@,
            fields: self.fields@,
            model_to_table: self.model_to_table@,
            model_pk_to_table: key_view(self.model_pk_to_table),
            table_to_model: self.table_to_model@,
            path: self.item_collection.path@,
            links: index_map_entries(self.item_collection.field_mapping),
            model_column: self.item_collection.model_column,
        }
    }
}

impl ModelView {
    /// Whether the field at `index` is stored in a column of its own.
    pub open spec fn stores(self, index: int) -> bool {
        0 <= index < self.fields.len() && self.fields[index] is Some
    }

    /// The column of the field at `index`.
    pub open spec fn column_of(self, index: int) -> ColumnId {
        self.fields[index]->0.column
    }

    /// The mapping with another column for the field at `index`.
    pub open spec fn with_column(self, index: int, column: ColumnId) -> ModelView {
        ModelView {
            fields: self.fields.update(
                index,
                Some(FieldMapping { column, ..self.fields[index]->0 }),
            ),
            ..self
        }
    }

    /// The mapping with another lowering position for the field at `index`.
    pub open spec fn with_lowering(self, index: int, lowering: usize) -> ModelView {
        ModelView {
            fields: self.fields.update(
                index,
                Some(FieldMapping { lowering, ..self.fields[index]->0 }),
            ),
            ..self
        }
    }

    /// Whether the field is linked to a field of a parent.
    pub open spec fn is_linked(self, field: FieldId) -> bool {
        value_at(self.links, field_key(field)) is Some
    }

    /// The parent's field that the field is linked to.
    pub open spec fn parent_field(self, field: FieldId) -> FieldId {
        key_field(value_at(self.links, field_key(field))->0)
    }

    /// Whether the path, if there is one, ends with the model itself.
    pub open spec fn path_ends_here(self) -> bool {
        self.path.len() > 0 ==> self.path.last() == self.id
    }
}

impl Model {
    /// The column of the field at `index`.
    pub fn column_of(&self, index: usize) -> (r: ColumnId)
        requires
            self@.stores(index as int),
        ensures
            r == self@.column_of(index as int),
    {
        self.fields[index].unwrap().column
    }

    /// Sets the column of the field at `index`.
    pub fn set_column(&mut self, index: usize, column: ColumnId)
        requires
            old(self)@.stores(index as int),
        ensures
            final(self)@ == old(self)@.with_column(index as int, column),
    {
        let lowering: usize = self.fields[index].unwrap().lowering;
        self.fields[index] = Some(FieldMapping { column, lowering });
        assert(self@ =~= old(self)@.with_column(index as int, column));
    }

    /// Sets the position of the expression of the field at `index`.
    pub fn set_lowering(&mut self, index: usize, lowering: usize)
        requires
            old(self)@.stores(index as int),
        ensures
            final(self)@ == old(self)@.with_lowering(index as int, lowering),
    {
        let column = self.fields[index].unwrap().column;
        self.fields[index] = Some(FieldMapping { column, lowering });
        assert(self@ =~= old(self)@.with_lowering(index as int, lowering));
    }
}

/// The mappings of all models.
#[derive(Debug)]
pub struct Mapping {
    pub models: Vec<Model>,
}

/// The place of the first mapping for the given model.
pub open spec fn place_of(models: Seq<Model>, id: ModelId) -> Option<int>
    decreases models.len(),
{
    if models.len() == 0 {
        None
    } else {
        match place_of(models.drop_last(), id) {
            Some(i) => Some(i),
            None => if models.last().id == id {
                Some(models.len() - 1)
            } else {
                None
            },
        }
    }
}

proof fn lemma_place_of(models: Seq<Model>, id: ModelId)
    ensures
        match place_of(models, id) {
            Some(i) => {
                &&& 0 <= i < models.len()
                &&& models[i].id == id
                &&& forall|j: int| 0 <= j < i ==> (#[trigger] models[j]).id != id
            },
            None => forall|j: int| 0 <= j < models.len() ==> (#[trigger] models[j]).id != id,
        },
    decreases models.len(),
{
    if models.len() > 0 {
        let rest = models.drop_last();
        lemma_place_of(rest, id);
        match place_of(rest, id) {
            Some(i) => {
                assert(rest[i] == models[i]);
                assert forall|j: int| 0 <= j < i implies (#[trigger] models[j]).id != id by {
                    assert(rest[j] == models[j]);
                }
            },
            None => {
                assert forall|j: int| 0 <= j < rest.len() implies (#[trigger] models[j]).id != id by {
                    assert(rest[j] == models[j]);
                }
            },
        }
    }
}

proof fn lemma_place_is(models: Seq<Model>, id: ModelId, i: int)
    requires
        0 <= i < models.len(),
        models[i].id == id,
        forall|j: int| 0 <= j < i ==> (#[trigger] models[j]).id != id,
    ensures
        place_of(models, id) == Some(i),
{
    lemma_place_of(models, id);
    match place_of(models, id) {
        Some(k) => {
            if k < i {
                assert(models[k].id != id);
            } else if i < k {
                assert(models[i].id != id);
            }
        },
        None => {},
    }
}

proof fn lemma_update(models: Seq<Model>, i: int, model: Model)
    requires
        0 <= i < models.len(),
        place_of(models, models[i].id) == Some(i),
        model.id == models[i].id,
    ensures
        mapping_view(models.update(i, model)) == mapping_view(models).insert(model.id, model@),
{
    let next = models.update(i, model);
    assert forall|id: ModelId| #[trigger] place_of(next, id) == place_of(models, id) by {
        lemma_place_of(models, id);
        lemma_place_of(next, id);
        match place_of(models, id) {
            Some(k) => {
                assert forall|j: int| 0 <= j < k implies (#[trigger] next[j]).id != id by {
                    assert(models[j].id != id);
                }
                lemma_place_is(next, id, k);
            },
            None => {
                match place_of(next, id) {
                    Some(k) => {
                        assert(models[k].id != id);
                    },
                    None => {},
                }
            },
        }
    }
    assert forall|id: ModelId| #[trigger] mapping_view(next).contains_key(id) implies mapping_view(
        next,
    )[id] == mapping_view(models).insert(model.id, model@)[id] by {
        lemma_place_of(models, id);
        assert(place_of(next, id) == place_of(models, id));
    }
    assert(mapping_view(next) =~= mapping_view(models).insert(model.id, model@));
}

/// The mappings by model.
pub open spec fn mapping_view(models: Seq<Model>) -> Map<ModelId, ModelView> {
    Map::new(
        |id: ModelId| place_of(models, id) is Some,
        |id: ModelId| models[place_of(models, id)->0]@,
    )
}

impl View for Mapping {
    type V = Map<ModelId, ModelView>;

    open spec fn view(&self) -> Map<ModelId, ModelView> {
        mapping_view(self.models@)
    }
}

impl Mapping {
    fn find(&self, id: ModelId) -> (r: usize)
        requires
            self@.contains_key(id),
        ensures
            r < self.models@.len(),
            place_of(self.models@, id) == Some(r as int),
            self.models@[r as int].id == id,
    {
        proof {
            lemma_place_of(self.models@, id);
        }
        let n: usize = self.models.len();
        let mut i: usize = 0;
        while self.models[i].id != id
            invariant
                i < n,
                n == self.models@.len(),
                forall|j: int| 0 <= j < i ==> (#[trigger] self.models@[j]).id != id,
                match place_of(self.models@, id) {
                    Some(k) => i <= k < self.models@.len() && self.models@[k].id == id,
                    None => false,
                },
            decreases self.models@.len() - i,
        {
            i = i + 1;
        }
        proof {
            lemma_place_is(self.models@, id, i as int);
        }
        i
    }

    /// The mapping of a model.
    pub fn model(&self, id: ModelId) -> (r: &Model)
        requires
            self@.contains_key(id),
        ensures
            r@ == self@[id],
            r.id == id,
    {
        let i: usize = self.find(id);
        &self.models[i]
    }

    /// The mapping of a model, to be changed.
    pub fn model_mut(&mut self, id: ModelId) -> (r: &mut Model)
        requires
            old(self)@.contains_key(id),
        ensures
            r@ == old(self)@[id],
            r.id == id,
            final(r).id == id ==> final(self)@ == old(self)@.insert(id, final(r)@),
    {
        let i: usize = self.find(id);
        proof {
            let models = self.models@;
            assert forall|m: Model| m.id == id implies mapping_view(
                #[trigger] models.update(i as int, m),
            ) == mapping_view(models).insert(id, m@) by {
                lemma_update(models, i as int, m);
            }
        }
        &mut self.models[i]
    }
}

} // verus!

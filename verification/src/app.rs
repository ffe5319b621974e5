//! The application's schema: models, their fields and their indices.

use crate::db::{IndexOp, IndexScope, StorageType};
use crate::stmt::Type;
use vstd::prelude::*;

verus! {

/// Identifies a model.
#[derive(Clone, Copy, PartialEq, Eq, Structural, Debug)]
pub struct ModelId(pub usize);

/// Identifies a field by its model and its position there.
#[derive(Clone, Copy, PartialEq, Eq, Structural, Debug)]
pub struct FieldId {
    pub model: ModelId,
    pub index: usize,
}

/// The name of a model in the forms in which schemas use it.
#[derive(Debug)]
pub struct Name {
    pub snake_case: String,
    pub camel_case: String,
    /// The plural of the snake-case form
    pub plural: String,
}

impl Name {
    /// The name in snake case.
    pub fn snake_case(&self) -> (r: String)
        ensures
            r == self.snake_case,
    {
        self.snake_case.clone()
    }

    /// The name in camel case.
    pub fn camel_case(&self) -> (r: String)
        ensures
            r == self.camel_case,
    {
        self.camel_case.clone()
    }
}

/// The types of the column that stores a field.
#[derive(Clone, Copy, PartialEq, Eq, Structural, Debug)]
pub struct ColumnStorage {
    /// How the database stores the column
    pub storage_ty: StorageType,
    /// The type in which values of the column reach the driver
    pub ty: Type,
}

/// A field that holds a value of its own.
#[derive(Debug)]
pub struct FieldPrimitive {
    /// The type of the field in the application
    pub ty: Type,
    /// The types of its column, if the database can store the field at all
    pub storage: Option<ColumnStorage>,
}

/// One field of a foreign key and the field it refers to.
#[derive(Clone, Copy, PartialEq, Eq, Structural, Debug)]
pub struct ForeignKeyField {
    pub source: FieldId,
    pub target: FieldId,
}

/// A relation in which this model holds the foreign key.
#[derive(Debug)]
pub struct BelongsTo {
    pub foreign_key: Vec<ForeignKeyField>,
}

/// What a field holds.
#[derive(Debug)]
pub enum FieldTy {
    Primitive(FieldPrimitive),
    BelongsTo(BelongsTo),
    HasMany(ModelId),
    HasOne(ModelId),
}

/// A field of a model.
#[derive(Debug)]
pub struct Field {
    pub id: FieldId,
    /// The name under which the field is stored
    pub name: String,
    pub ty: FieldTy,
    pub nullable: bool,
    pub primary_key: bool,
}

/// One field of an index.
#[derive(Clone, Copy, PartialEq, Eq, Structural, Debug)]
pub struct IndexField {
    pub field: FieldId,
    pub op: IndexOp,
    pub scope: IndexScope,
}

/// An index over fields of a model.
#[derive(Debug)]
pub struct Index {
    pub fields: Vec<IndexField>,
    pub unique: bool,
    pub primary_key: bool,
}

/// A model.
#[derive(Debug)]
pub struct Model {
    pub id: ModelId,
    pub name: Name,
    pub fields: Vec<Field>,
    pub indices: Vec<Index>,
    /// The table that the application asks for
    pub table_name: Option<String>,
    /// The parent model in whose item collection this model is stored
    pub item_collection: Option<ModelId>,
}

/// The models of an application.
#[derive(Debug)]
pub struct Schema {
    pub models: Vec<Model>,
}

/// Whether the list has a model with the given identifier.
pub open spec fn has_model(models: Seq<Model>, id: ModelId) -> bool {
    exists|i: int| 0 <= i < models.len() && (#[trigger] models[i]).id == id
}

/// The first model of the list with the given identifier.
pub open spec fn find_model(models: Seq<Model>, id: ModelId) -> Model
    decreases models.len(),
{
    if models.len() == 0 {
        arbitrary()
    } else if models[0].id == id {
        models[0]
    } else {
        find_model(models.skip(1), id)
    }
}

/// The model that is found is one of the list and has the identifier that was asked for.
pub proof fn lemma_find_model(models: Seq<Model>, id: ModelId)
    requires
        has_model(models, id),
    ensures
        find_model(models, id).id == id,
        models.contains(find_model(models, id)),
    decreases models.len(),
{
    let i = choose|i: int| 0 <= i < models.len() && (#[trigger] models[i]).id == id;
    if models[0].id != id {
        assert(models.skip(1)[i - 1].id == id);
        lemma_find_model(models.skip(1), id);
        let rest = models.skip(1);
        let k = rest.index_of(find_model(rest, id));
        assert(models[k + 1] == find_model(models, id));
    } else {
        assert(models[0] == find_model(models, id));
    }
}

/// Whether every field's identifier names the model and the field's position.
pub open spec fn fields_numbered(model: Model) -> bool {
    forall|i: int|
        0 <= i < model.fields@.len() ==> (#[trigger] model.fields@[i]).id == (FieldId {
            model: model.id,
            index: i as usize,
        })
}

impl Schema {
    /// The model with the given identifier.
    pub fn model(&self, id: ModelId) -> (r: &Model)
        requires
            has_model(self.models@, id),
        ensures
            *r == find_model(self.models@, id),
            r.id == id,
    {
        let n: usize = self.models.len();
        let mut i: usize = 0;
        assert(self.models@.skip(0) =~= self.models@);
        while self.models[i].id != id
            invariant
                i < n,
                n == self.models@.len(),
                forall|j: int| 0 <= j < i ==> (#[trigger] self.models@[j]).id != id,
                find_model(self.models@.skip(i as int), id) == find_model(self.models@, id),
                has_model(self.models@, id),
            decreases self.models@.len() - i,
        {
            assert(self.models@.skip(i as int).skip(1) =~= self.models@.skip(i + 1));
            i = i + 1;
        }
        &self.models[i]
    }
}

} // verus!

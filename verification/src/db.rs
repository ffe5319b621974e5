//! The database's schema: tables, their columns and their indices.

use crate::stmt::Type;
use vstd::prelude::*;

verus! {

/// Identifies a table.
#[derive(Clone, Copy, PartialEq, Eq, Structural, Debug)]
pub struct TableId(pub usize);

impl TableId {
    /// Stands for a table that is not known yet.
    pub open spec fn placeholder_view() -> TableId {
        TableId(usize::MAX)
    }

    /// Stands for a table that is not known yet.
    pub fn placeholder() -> (r: TableId)
        ensures
            r == TableId::placeholder_view(),
    {
        TableId(usize::MAX)
    }
}

/// Identifies a column by its table and its position there.
#[derive(Clone, Copy, PartialEq, Eq, Structural, Debug)]
pub struct ColumnId {
    pub table: TableId,
    pub index: usize,
}

impl ColumnId {
    /// Stands for a column that is not known yet.
    pub open spec fn placeholder_view() -> ColumnId {
        ColumnId { table: TableId::placeholder_view(), index: usize::MAX }
    }

    /// Stands for a column that is not known yet.
    pub fn placeholder() -> (r: ColumnId)
        ensures
            r == ColumnId::placeholder_view(),
    {
        ColumnId { table: TableId::placeholder(), index: usize::MAX }
    }
}

/// Identifies an index by its table and its position there.
#[derive(Clone, Copy, PartialEq, Eq, Structural, Debug)]
pub struct IndexId {
    pub table: TableId,
    pub index: usize,
}

/// How the database stores a column.
#[derive(Clone, Copy, PartialEq, Eq, Structural, Debug)]
pub enum StorageType {
    Boolean,
    /// A signed number of that many bytes
    Integer(u8),
    /// An unsigned number of that many bytes
    UnsignedInteger(u8),
    Text,
    /// Text of at most that many bytes
    VarChar(u64),
    Blob,
    /// That many bytes
    Binary(u8),
}

/// How an index column is searched.
#[derive(Clone, Copy, PartialEq, Eq, Structural, Debug)]
pub enum IndexOp {
    Eq,
}

/// Which part of the key an index column belongs to.
#[derive(Clone, Copy, PartialEq, Eq, Structural, Debug)]
pub enum IndexScope {
    /// Picks the partition
    Partition,
    /// Orders rows within a partition
    Local,
}

/// A column.
#[derive(Debug)]
pub struct Column {
    pub id: ColumnId,
    pub name: String,
    /// The type in which values of the column reach the driver
    pub ty: Type,
    pub storage_ty: StorageType,
    pub nullable: bool,
    pub primary_key: bool,
}

/// One column of an index.
#[derive(Clone, Copy, PartialEq, Eq, Structural, Debug)]
pub struct IndexColumn {
    pub column: ColumnId,
    pub op: IndexOp,
    pub scope: IndexScope,
}

/// An index over columns of a table.
#[derive(Debug)]
pub struct Index {
    pub id: IndexId,
    pub name: String,
    /// The table that is indexed
    pub on: TableId,
    pub columns: Vec<IndexColumn>,
    pub unique: bool,
    pub primary_key: bool,
}

/// The primary key of a table.
#[derive(Debug)]
pub struct PrimaryKey {
    pub columns: Vec<ColumnId>,
    /// The index over the key
    pub index: IndexId,
}

/// A table.
#[derive(Debug)]
pub struct Table {
    pub id: TableId,
    pub name: String,
    pub columns: Vec<Column>,
    pub primary_key: PrimaryKey,
    pub indices: Vec<Index>,
}

/// The tables of a database.
#[derive(Debug)]
pub struct Schema {
    pub tables: Vec<Table>,
}

/// What a column says.
pub struct ColumnView {
    pub id: ColumnId,
    pub name: Seq<char>,
    pub ty: Type,
    pub storage_ty: StorageType,
    pub nullable: bool,
    pub primary_key: bool,
}

impl View for Column {
    type V = ColumnView;

    open spec fn view(&self) -> ColumnView {
        ColumnView {
            id: self.id,
            name: self.name@,
            ty: self.ty,
            storage_ty: self.storage_ty,
            nullable: self.nullable,
            primary_key: self.primary_key,
        }
    }
}

/// What an index says.
#[verifier::ext_equal]
pub struct IndexView {
    pub id: IndexId,
    pub name: Seq<char>,
    pub on: TableId,
    pub columns: Seq<IndexColumn>,
    pub unique: bool,
    pub primary_key: bool,
}

impl View for Index {
    type V = IndexView;

    open spec fn view(&self) -> IndexView {
        IndexView {
            id: self.id,
            name: self.name@,
            on: self.on,
            columns: self.columns@,
            unique: self.unique,
            primary_key: self.primary_key,
        }
    }
}

/// What a table says.
#[verifier::ext_equal]
pub struct TableView {
    pub id: TableId,
    pub name: Seq<char>,
    pub columns: Seq<ColumnView>,
    pub key_columns: Seq<ColumnId>,
    pub key_index: IndexId,
    pub indices: Seq<IndexView>,
}

impl View for Table {
    type V = TableView;

    open spec fn view(&self) -> TableView {
        TableView {
            id: self.id,
            name: self.name@,
            columns: self.columns@.map_values(|c: Column| c@),
            key_columns: self.primary_key.columns@,
            key_index: self.primary_key.index,
            indices: self.indices@.map_values(|i: Index| i@),
        }
    }
}

impl TableView {
    /// A table without columns.
    pub open spec fn empty(id: TableId, name: Seq<char>) -> TableView {
        TableView {
            id,
            name,
            columns: Seq::empty(),
            key_columns: Seq::empty(),
            key_index: IndexId { table: id, index: 0 },
            indices: Seq::empty(),
        }
    }

    /// Whether the identifier names a column of this table.
    pub open spec fn has_column(self, id: ColumnId) -> bool {
        id.index < self.columns.len()
    }

    /// The column at the identifier's position.
    pub open spec fn column(self, id: ColumnId) -> ColumnView {
        self.columns[id.index as int]
    }
}

impl Table {
    /// A table without columns.
    pub fn new(id: TableId, name: String) -> (r: Table)
        ensures
            r@ == TableView::empty(id, name@),
    {
        let r = Table {
            id,
            name,
            columns: Vec::new(),
            primary_key: PrimaryKey { columns: Vec::new(), index: IndexId { table: id, index: 0 } },
            indices: Vec::new(),
        };
        assert(r@ =~= TableView::empty(id, name@));
        r
    }

    /// The column at the identifier's position.
    pub fn column(&self, id: ColumnId) -> (r: &Column)
        requires
            self@.has_column(id),
        ensures
            *r == self.columns@[id.index as int],
            r@ == self@.column(id),
    {
        &self.columns[id.index]
    }
}

impl Schema {
    /// Whether the identifier names a column of one of the tables.
    pub open spec fn has_column(self, id: ColumnId) -> bool {
        id.table.0 < self.tables@.len() && self.tables@[id.table.0 as int]@.has_column(id)
    }

    /// The column that the identifier names.
    pub open spec fn column_view(self, id: ColumnId) -> ColumnView {
        self.tables@[id.table.0 as int]@.column(id)
    }

    /// The table at the identifier's position.
    pub fn table(&self, id: TableId) -> (r: &Table)
        requires
            id.0 < self.tables@.len(),
        ensures
            *r == self.tables@[id.0 as int],
    {
        &self.tables[id.0]
    }

    /// The column that the identifier names.
    pub fn column(&self, id: ColumnId) -> (r: &Column)
        requires
            self.has_column(id),
        ensures
            r@ == self.column_view(id),
            *r == self.tables@[id.table.0 as int].columns@[id.index as int],
    {
        self.tables[id.table.0].column(id)
    }
}

} // verus!

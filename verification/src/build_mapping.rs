//! Computes how a model's fields and a table's columns are expressed in terms
//! of each other.

use crate::app::{Field, FieldId, FieldPrimitive, FieldTy, Model};
use crate::db::{ColumnId, Table, TableView};
use crate::mapping::{self, KeyView, ModelView};
use crate::stmt::{Expr, ExprColumn, ExprReference, Type, Value};
use vstd::prelude::*;

verus! {

/// Computes a model's mapping.
pub struct BuildMapping<'a> {
    pub table: &'a Table,
    pub mapping: &'a mut mapping::Model,
    pub lowering_columns: Vec<ColumnId>,
    pub model_to_table: Vec<Expr>,
    pub model_pk_to_table: Vec<Expr>,
    pub table_to_model: Vec<Expr>,
}

/// A mapping together with the columns and expressions gathered for it so far.
#[verifier::ext_equal]
pub struct Lowering {
    pub mapping: ModelView,
    pub columns: Seq<ColumnId>,
    pub exprs: Seq<Expr>,
}

/// `expr`, of type `ty`, in the type of the column that stores it.
pub open spec fn encoded(table: TableView, column: ColumnId, ty: Type, expr: Expr) -> Expr {
    if table.column(column).ty == ty {
        expr
    } else {
        Expr::Cast(Box::new(expr), table.column(column).ty)
    }
}

/// The value of a column, in the type `ty` of the field that it stores.
pub open spec fn decoded(table: TableView, column: ColumnId, ty: Type) -> Expr {
    let expr = Expr::Reference(
        ExprReference::Column(ExprColumn { nesting: 0, table: 0, column: column.index }),
    );
    if table.column(column).ty == ty {
        expr
    } else {
        Expr::Cast(Box::new(expr), ty)
    }
}

/// What one field adds: a primitive field adds its column and its expression,
/// and remembers where the expression stands; a relation adds nothing.
pub open spec fn lower_field(table: TableView, s: Lowering, field: Field) -> Lowering {
    match field.ty {
        FieldTy::Primitive(primitive) => {
            let column = s.mapping.column_of(field.id.index as int);
            Lowering {
                mapping: s.mapping.with_lowering(field.id.index as int, s.exprs.len() as usize),
                columns: s.columns.push(column),
                exprs: s.exprs.push(
                    encoded(
                        table,
                        column,
                        primitive.ty,
                        Expr::Reference(ExprReference::Field(field.id)),
                    ),
                ),
            }
        },
        _ => s,
    }
}

/// What several fields add, one after the other.
pub open spec fn lower_fields(table: TableView, s: Lowering, fields: Seq<Field>) -> Lowering
    decreases fields.len(),
{
    if fields.len() == 0 {
        s
    } else {
        lower_field(table, lower_fields(table, s, fields.drop_last()), fields.last())
    }
}

/// The expression of one field in terms of columns; relations have none.
pub open spec fn raised_field(table: TableView, mapping: ModelView, field: Field) -> Expr {
    match field.ty {
        FieldTy::Primitive(primitive) => decoded(
            table,
            mapping.column_of(field.id.index as int),
            primitive.ty,
        ),
        _ => Expr::Value(Value::Null),
    }
}

/// Whether a primitive field has a column of the table and a type that can be stored.
pub open spec fn field_ready(table: TableView, mapping: ModelView, field: Field) -> bool {
    match field.ty {
        FieldTy::Primitive(primitive) => {
            &&& mapping.stores(field.id.index as int)
            &&& mapping.column_of(field.id.index as int) != ColumnId::placeholder_view()
            &&& table.has_column(mapping.column_of(field.id.index as int))
            &&& primitive.ty != Type::Null
        },
        _ => true,
    }
}

/// Whether all fields are ready.
pub open spec fn fields_ready(table: TableView, mapping: ModelView, fields: Seq<Field>) -> bool {
    forall|i: int| 0 <= i < fields.len() ==> field_ready(table, mapping, #[trigger] fields[i])
}

/// Whether there is a field that holds a value of its own.
pub open spec fn has_primitive(fields: Seq<Field>) -> bool {
    exists|i: int| 0 <= i < fields.len() && (#[trigger] fields[i]).ty is Primitive
}

/// Whether an expression can stand for a primary key of a single field.
pub open spec fn is_field_or_cast(expr: Expr) -> bool {
    expr matches Expr::Reference(ExprReference::Field(_)) || expr is Cast
}

/// The primary key in terms of its fields' expressions.
pub open spec fn key_lowering(exprs: Seq<Expr>) -> KeyView {
    if exprs.len() == 1 {
        KeyView::One(exprs[0])
    } else {
        KeyView::Record(exprs)
    }
}

/// A model's mapping once its columns are known.
pub open spec fn mapped(table: TableView, mapping: ModelView, model: Model) -> ModelView {
    let lowered = lower_fields(
        table,
        Lowering { mapping, columns: Seq::empty(), exprs: Seq::empty() },
        model.fields@,
    );
    ModelView {
        columns: lowered.columns,
        model_to_table: lowered.exprs,
        table_to_model: model.fields@.map_values(|f: Field| raised_field(table, mapping, f)),
        model_pk_to_table: KeyView::Record(Seq::empty()),
        ..lowered.mapping
    }
}

/// Lowering moves no column and adds as many expressions as columns.
pub proof fn lemma_lower_fields(table: TableView, s: Lowering, fields: Seq<Field>)
    requires
        fields_ready(table, s.mapping, fields),
    ensures
        ({
            let t = lower_fields(table, s, fields);
            &&& t.mapping.fields.len() == s.mapping.fields.len()
            &&& forall|i: int|
                0 <= i < s.mapping.fields.len() ==> {
                    &&& (#[trigger] t.mapping.fields[i]) is Some == s.mapping.fields[i] is Some
                    &&& t.mapping.fields[i] is Some ==> t.mapping.fields[i]->0.column
                        == s.mapping.fields[i]->0.column
                }
            &&& t.mapping == ModelView { fields: t.mapping.fields, ..s.mapping }
            &&& t.columns.len() - s.columns.len() == t.exprs.len() - s.exprs.len()
            &&& t.exprs.len() >= s.exprs.len()
            &&& has_primitive(fields) ==> t.exprs.len() > s.exprs.len()
        }),
    decreases fields.len(),
{
    if fields.len() > 0 {
        let rest = fields.drop_last();
        assert forall|i: int| 0 <= i < rest.len() implies field_ready(
            table,
            s.mapping,
            #[trigger] rest[i],
        ) by {
            assert(rest[i] == fields[i]);
        }
        lemma_lower_fields(table, s, rest);
        assert(field_ready(table, s.mapping, fields[fields.len() - 1]));
        if has_primitive(fields) && !(fields.last().ty is Primitive) {
            let i = choose|i: int| 0 <= i < fields.len() && (#[trigger] fields[i]).ty is Primitive;
            assert(rest[i].ty is Primitive);
        }
    }
}

impl<'a> BuildMapping<'a> {
    /// What has been gathered so far.
    pub open spec fn gathered(self) -> Lowering {
        Lowering {
            mapping: self.mapping@,
            columns: self.lowering_columns@,
            exprs: self.model_to_table@,
        }
    }

    /// Sets the model's mapping from the columns of its fields.
    pub fn build_mapping(self, model: &Model)
        requires
            fields_ready(self.table@, self.mapping@, model.fields@),
            has_primitive(model.fields@) || self.model_to_table@.len() > 0,
            self.model_to_table@.len() == self.lowering_columns@.len(),
            self.model_pk_to_table@.len() == 1 ==> is_field_or_cast(self.model_pk_to_table@[0]),
        ensures
            ({
                let lowered = lower_fields(self.table@, self.gathered(), model.fields@);
                final(self.mapping)@ == (ModelView {
                    columns: lowered.columns,
                    model_to_table: lowered.exprs,
                    table_to_model: self.table_to_model@ + model.fields@.map_values(
                        |f: Field| raised_field(self.table@, self.gathered().mapping, f),
                    ),
                    model_pk_to_table: key_lowering(self.model_pk_to_table@),
                    ..lowered.mapping
                })
            }),
    {
        let mut this = self;
        let ghost table = this.table@;
        let ghost before = this.mapping@;
        let ghost start = this.table_to_model@;
        let ghost keys = this.model_pk_to_table@;
        proof {
            lemma_lower_fields(table, this.gathered(), model.fields@);
        }
        this.map_model_fields_to_columns(model);
        let ghost lowered = this.gathered();
        let ghost raise = |f: Field| raised_field(table, before, f);
        let mut i: usize = 0;
        assert(start + model.fields@.take(0).map_values(raise) =~= start);
        while i < model.fields.len()
            invariant
                i <= model.fields@.len(),
                this.table@ == table,
                *final(this.mapping) == *final(self.mapping),
                this.gathered() == lowered,
                this.model_pk_to_table@ == keys,
                this.table_to_model@ == start + model.fields@.take(i as int).map_values(raise),
                raise == (|f: Field| raised_field(table, before, f)),
                fields_ready(table, before, model.fields@),
                lowered.mapping.fields.len() == before.fields.len(),
                forall|k: int|
                    0 <= k < before.fields.len() ==> {
                        &&& (#[trigger] lowered.mapping.fields[k]) is Some == before.fields[k] is Some
                        &&& lowered.mapping.fields[k] is Some
                            ==> lowered.mapping.fields[k]->0.column == before.fields[k]->0.column
                    },
            decreases model.fields@.len() - i,
        {
            let field = &model.fields[i];
            assert(field_ready(table, before, model.fields@[i as int]));
            match &field.ty {
                FieldTy::Primitive(primitive) => {
                    let expr = this.map_table_column_to_model(field.id, primitive);
                    this.table_to_model.push(expr);
                },
                FieldTy::BelongsTo(_) | FieldTy::HasMany(_) | FieldTy::HasOne(_) => {
                    this.table_to_model.push(Expr::null());
                },
            }
            proof {
                assert(model.fields@.take(i + 1) =~= model.fields@.take(i as int).push(*field));
                assert(this.table_to_model@ =~= start + model.fields@.take(i + 1).map_values(raise));
            }
            i = i + 1;
        }
        assert(model.fields@.take(i as int) =~= model.fields@);

        this.mapping.columns = this.lowering_columns;
        this.mapping.model_to_table = this.model_to_table;
        this.mapping.table_to_model = this.table_to_model;
        this.mapping.model_pk_to_table =
        if this.model_pk_to_table.len() == 1 {
            this.model_pk_to_table.pop().unwrap()
        } else {
            Expr::Record(this.model_pk_to_table)
        };
    }

    /// Gathers the columns and expressions of all primitive fields.
    pub fn map_model_fields_to_columns(&mut self, model: &Model)
        requires
            fields_ready(old(self).table@, old(self).mapping@, model.fields@),
        ensures
            final(self).gathered() == lower_fields(
                old(self).table@,
                old(self).gathered(),
                model.fields@,
            ),
            final(self).table == old(self).table,
            final(self).model_pk_to_table == old(self).model_pk_to_table,
            final(self).table_to_model == old(self).table_to_model,
            *final(final(self).mapping) == *final(old(self).mapping),
    {
        let ghost table = self.table@;
        let ghost start = self.gathered();
        let mut i: usize = 0;
        assert(model.fields@.take(0) =~= Seq::<Field>::empty());
        while i < model.fields.len()
            invariant
                i <= model.fields@.len(),
                table == old(self).table@,
                start == old(self).gathered(),
                fields_ready(table, start.mapping, model.fields@),
                self.gathered() == lower_fields(table, start, model.fields@.take(i as int)),
                self.table == old(self).table,
                self.model_pk_to_table == old(self).model_pk_to_table,
                self.table_to_model == old(self).table_to_model,
                *final(self.mapping) == *final(old(self).mapping),
            decreases model.fields@.len() - i,
        {
            let field = &model.fields[i];
            proof {
                let done = model.fields@.take(i as int);
                assert forall|k: int| 0 <= k < done.len() implies field_ready(
                    table,
                    start.mapping,
                    #[trigger] done[k],
                ) by {
                    assert(done[k] == model.fields@[k]);
                }
                lemma_lower_fields(table, start, done);
                assert(field_ready(table, start.mapping, model.fields@[i as int]));
                assert(model.fields@.take(i + 1).drop_last() =~= done);
            }
            match &field.ty {
                FieldTy::Primitive(primitive) => {
                    self.map_primitive(field.id, primitive);
                },
                FieldTy::BelongsTo(_) | FieldTy::HasMany(_) | FieldTy::HasOne(_) => {},
            }
            i = i + 1;
        }
        assert(model.fields@.take(i as int) =~= model.fields@);
    }

    /// Gathers the column and the expression of one primitive field.
    pub fn map_primitive(&mut self, field: FieldId, primitive: &FieldPrimitive)
        requires
            old(self).mapping@.stores(field.index as int),
            old(self).table@.has_column(old(self).mapping@.column_of(field.index as int)),
            primitive.ty != Type::Null,
        ensures
            ({
                let s = old(self).gathered();
                let column = s.mapping.column_of(field.index as int);
                final(self).gathered() == (Lowering {
                    mapping: s.mapping.with_lowering(field.index as int, s.exprs.len() as usize),
                    columns: s.columns.push(column),
                    exprs: s.exprs.push(
                        encoded(
                            old(self).table@,
                            column,
                            primitive.ty,
                            Expr::Reference(ExprReference::Field(field)),
                        ),
                    ),
                })
            }),
            final(self).table == old(self).table,
            final(self).model_pk_to_table == old(self).model_pk_to_table,
            final(self).table_to_model == old(self).table_to_model,
            *final(final(self).mapping) == *final(old(self).mapping),
    {
        let column = self.mapping.column_of(field.index);
        let lowering = self.encode_column(column, &primitive.ty, Expr::ref_self_field(field));
        self.mapping.set_lowering(field.index, self.model_to_table.len());
        self.lowering_columns.push(column);
        self.model_to_table.push(lowering);
    }

    /// `expr`, of type `ty`, in the type of the column that stores it.
    pub fn encode_column(&self, column_id: ColumnId, ty: &Type, expr: Expr) -> (r: Expr)
        requires
            self.table@.has_column(column_id),
            *ty != Type::Null,
        ensures
            r == encoded(self.table@, column_id, *ty, expr),
    {
        let column = self.table.column(column_id);
        if column.ty == *ty {
            expr
        } else {
            // If the types do not match, attempt casting as a fallback.
            Expr::cast(expr, column.ty)
        }
    }

    /// Maps table columns to model field expressions during query lowering.
    ///
    /// Called during query planning to replace model field references with the
    /// appropriate table column expressions. Handles type conversions between
    /// table storage and model types.
    pub fn map_table_column_to_model(&self, field_id: FieldId, primitive: &FieldPrimitive) -> (r:
        Expr)
        requires
            self.mapping@.stores(field_id.index as int),
            self.table@.has_column(self.mapping@.column_of(field_id.index as int)),
        ensures
            r == decoded(
                self.table@,
                self.gathered().mapping.column_of(field_id.index as int),
                primitive.ty,
            ),
    {
        let column_id = self.mapping.column_of(field_id.index);
        let column = self.table.column(column_id);

        // Nesting and table are stubs here (though often the actual values).
        // The engine must substitute these with the actual position of the table
        // in the query's source.
        let expr_column = Expr::column(
            ExprColumn { nesting: 0, table: 0, column: column_id.index },
        );
        if column.ty == primitive.ty {
            expr_column
        } else {
            // If the types do not match, attempt casting as a fallback.
            Expr::cast(expr_column, primitive.ty)
        }
    }
}

} // verus!

//! The request that looks rows up by their primary key.

use crate::attribute::{AttributeValue, AttributeView};
use crate::db::{Column, ColumnId, ColumnView, IndexScope, Schema, TableId, TableView};
use crate::expression::{AttrsView, ExprAttrs, ddb_expression, is_supported, name_views, written};
use crate::key_expression::{
    BuildKeyExpression, KeyConditions, components, key_condition, key_condition_ready,
};
use crate::keys::{
    attribute_views, is_keyed, key_index, local_known, sort_columns, sort_key_columns,
};
use crate::records::{
    column_views, item_fits, item_readable, reads_back, record_of, try_item_to_record,
};
use crate::stmt::{Expr, ExprBinaryOp, Value, value_views};
use crate::string_map::StringMap;
use crate::table_plan::{key_columns, lemma_scoped, partition_column, scoped};
use vstd::prelude::*;

verus! {

/// A look-up of rows by their primary key.
#[derive(Debug)]
pub struct QueryPk {
    pub table: TableId,
    /// The condition on the primary key
    pub pk_filter: Expr,
    /// A further condition
    pub filter: Option<Expr>,
    /// The columns to read
    pub select: Vec<ColumnId>,
}

/// The request that looks rows up.
#[derive(Debug)]
pub struct QueryPlan {
    pub table_name: String,
    pub key_condition_expression: String,
    pub filter_expression: Option<String>,
    /// What the name placeholders stand for
    pub expression_attribute_names: StringMap<String>,
    /// What the value placeholders stand for
    pub expression_attribute_values: StringMap<AttributeValue>,
}

/// What a request that looks rows up says.
#[verifier::ext_equal]
pub struct QueryView {
    pub table: Seq<char>,
    pub key_condition: Seq<char>,
    pub filter: Option<Seq<char>>,
    pub names: Map<Seq<char>, Seq<char>>,
    pub values: Map<Seq<char>, AttributeView>,
}

impl View for QueryPlan {
    type V = QueryView;

    open spec fn view(&self) -> QueryView {
        QueryView {
            table: self.table_name@,
            key_condition: self.key_condition_expression@,
            filter: match self.filter_expression {
                Some(filter) => Some(filter@),
                None => None,
            },
            names: name_views(self.expression_attribute_names@),
            values: attribute_views(self.expression_attribute_values@),
        }
    }
}

/// The condition on the primary key, and the placeholders in it.
pub open spec fn pk_condition(table: TableView, pk_filter: Expr) -> (AttrsView, Seq<char>) {
    key_condition(
        table,
        AttrsView::empty(),
        partition_column(table).id,
        sort_columns(table),
        sort_columns(table).len() > 1,
        KeyConditions::empty(),
        pk_filter,
    )
}

/// The request that looks rows up. The conditions share their placeholders.
pub open spec fn query(table: TableView, pk_filter: Expr, filter: Option<Expr>) -> QueryView {
    let (s, key_condition) = pk_condition(table, pk_filter);
    let (t, filter_text) = match filter {
        Some(expr) => {
            let (t, text) = written(table, s, expr);
            (t, Some(text))
        },
        None => (s, None),
    };
    QueryView { table: table.name, key_condition, filter: filter_text, names: t.names, values: t.values }
}

/// Whether rows of a table can be looked up with the given conditions.
pub open spec fn can_query(table: TableView, pk_filter: Expr, filter: Option<Expr>) -> bool {
    &&& is_keyed(table)
    &&& scoped(key_index(table).columns, IndexScope::Partition).len() == 1
    &&& key_condition_ready(
        table,
        partition_column(table).id,
        sort_columns(table),
        sort_columns(table).len() > 1,
        KeyConditions::empty(),
        pk_filter,
    )
    &&& filter matches Some(expr) ==> is_supported(table, false, expr)
}

/// The request that looks rows up.
pub fn plan_query_pk(schema: &Schema, op: &QueryPk) -> (r: QueryPlan)
    requires
        op.table.0 < schema.tables@.len(),
        can_query(schema.tables@[op.table.0 as int]@, op.pk_filter, op.filter),
    ensures
        r@ == query(schema.tables@[op.table.0 as int]@, op.pk_filter, op.filter),
{
    let table = schema.table(op.table);
    let mut expr_attrs = ExprAttrs::new();
    let sk_cols = sort_key_columns(table);
    let pk_cols = key_columns(table, IndexScope::Partition);
    proof {
        lemma_scoped(table@, key_index(table@).columns, IndexScope::Partition);
    }
    assert(table@.has_column(pk_cols@[0]));
    let pk_column = table.column(pk_cols[0]);
    let concat_sk = sk_cols.len() > 1;
    let sk_components: Vec<(ColumnId, &ExprBinaryOp)> = Vec::new();
    assert(components(sk_components@) =~= KeyConditions::empty().sk);
    let mut build = BuildKeyExpression {
        table,
        attrs: &mut expr_attrs,
        expr: &op.pk_filter,
        pk_column,
        sk_columns: &sk_cols,
        concat_sk,
        sk_components,
        pk_component: None,
    };
    assert(build.conditions() =~= KeyConditions::empty());
    let key_condition_expression = build.build();
    let filter_expression = match &op.filter {
        Some(expr) => Some(ddb_expression(table, &mut expr_attrs, false, expr)),
        None => None,
    };
    let r = QueryPlan {
        table_name: table.name.clone(),
        key_condition_expression,
        filter_expression,
        expression_attribute_names: expr_attrs.attr_names,
        expression_attribute_values: expr_attrs.attr_values,
    };
    assert(r@ =~= query(table@, op.pk_filter, op.filter));
    r
}

/// What the selected columns say.
pub open spec fn selected(schema: Schema, select: Seq<ColumnId>) -> Seq<ColumnView> {
    select.map_values(|id: ColumnId| schema.column_view(id))
}

/// The selected values of an item that was found, if the item holds them as such.
pub fn read_item(schema: &Schema, op: &QueryPk, item: &StringMap<AttributeValue>) -> (r: Option<
    Vec<Value>,
>)
    requires
        op.table.0 < schema.tables@.len(),
        local_known(schema.tables@[op.table.0 as int]@),
        forall|i: int| 0 <= i < op.select@.len() ==> schema.has_column(#[trigger] op.select@[i]),
    ensures
        ({
            let view = attribute_views(item@);
            let columns = selected(*schema, op.select@);
            let sk_cols = sort_columns(schema.tables@[op.table.0 as int]@);
            match r {
                Some(record) => {
                    &&& item_fits(view, columns, sk_cols)
                    &&& value_views(record@) == record_of(view, columns, sk_cols)
                    &&& reads_back(view, columns, value_views(record@))
                },
                None => !item_fits(view, columns, sk_cols) && !item_readable(
                    view,
                    columns,
                    sk_cols,
                ),
            }
        }),
{
    let table = schema.table(op.table);
    let sk_cols = sort_key_columns(table);
    let mut columns: Vec<&Column> = Vec::new();
    let mut i: usize = 0;
    while i < op.select.len()
        invariant
            i <= op.select@.len(),
            forall|k: int|
                0 <= k < op.select@.len() ==> schema.has_column(#[trigger] op.select@[k]),
            columns@.len() == i,
            forall|k: int|
                0 <= k < i ==> (#[trigger] columns@[k])@ == schema.column_view(op.select@[k]),
        decreases op.select@.len() - i,
    {
        assert(schema.has_column(op.select@[i as int]));
        columns.push(schema.column(op.select[i]));
        i = i + 1;
    }
    assert(column_views(columns@) =~= selected(*schema, op.select@));
    try_item_to_record(item, &columns, &sk_cols)
}

} // verus!

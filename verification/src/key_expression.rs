//! The condition on the primary key by which items are looked up.

use crate::db::{Column, ColumnId, Table, TableView};
use crate::delimited::{self, delimiter_free, terminated};
use crate::attribute::AttributeView;
use crate::expression::{
    AttrsView, ExprAttrs, ddb_binary_op, ddb_expression, is_supported, name_views, referred,
    with_value, written, written_op,
};
use crate::keys::{sort_key_text, strings};
use crate::stmt::{BinaryOp, Expr, ExprBinaryOp, ExprReference, Value, ValueView};
use vstd::prelude::*;

verus! {

/// The comparisons that a condition on a key is made of.
#[verifier::ext_equal]
pub struct KeyConditions {
    /// On the column that picks the partition
    pub pk: Option<ExprBinaryOp>,
    /// On the other columns
    pub sk: Map<ColumnId, ExprBinaryOp>,
}

impl KeyConditions {
    /// No comparisons.
    pub open spec fn empty() -> KeyConditions {
        KeyConditions { pk: None, sk: Map::empty() }
    }
}

/// The column that a comparison is about, by its place in the table.
pub open spec fn compared(op: ExprBinaryOp) -> Option<usize> {
    match *op.lhs {
        Expr::Reference(reference) => referred(reference),
        _ => None,
    }
}

/// Whether a comparison asks whether a column of the table equals something.
pub open spec fn is_equation(table: TableView, op: ExprBinaryOp) -> bool {
    &&& op.op == BinaryOp::Eq
    &&& compared(op) matches Some(i) && i < table.columns.len()
}

/// Whether an expression is made of equations that all must hold.
pub open spec fn is_key_condition(table: TableView, expr: Expr) -> bool
    decreases expr,
{
    match expr {
        Expr::And(operands) => forall|i: int|
            0 <= i < operands@.len() ==> is_key_condition(table, #[trigger] operands@[i]),
        Expr::BinaryOp(op) => is_equation(table, op),
        Expr::IsNull(inner) => is_key_condition(table, *inner),
        Expr::Value(_) | Expr::Reference(_) => true,
        _ => false,
    }
}

/// The comparisons with one more, which replaces an earlier one on the same column.
pub open spec fn with_condition(
    table: TableView,
    pk: ColumnId,
    c: KeyConditions,
    op: ExprBinaryOp,
) -> KeyConditions {
    let id = table.columns[compared(op)->0 as int].id;
    if pk == id {
        KeyConditions { pk: Some(op), ..c }
    } else {
        KeyConditions { sk: c.sk.insert(id, op), ..c }
    }
}

/// The comparisons with those of an expression added.
pub open spec fn gathered(
    table: TableView,
    pk: ColumnId,
    c: KeyConditions,
    expr: Expr,
) -> KeyConditions
    decreases expr, 0nat,
{
    match expr {
        Expr::And(operands) => gathered_operands(table, pk, c, operands, operands@.len()),
        Expr::BinaryOp(op) => with_condition(table, pk, c, op),
        Expr::IsNull(inner) => gathered(table, pk, c, *inner),
        _ => c,
    }
}

/// The comparisons with those of the first `n` operands added.
pub open spec fn gathered_operands(
    table: TableView,
    pk: ColumnId,
    c: KeyConditions,
    operands: Vec<Expr>,
    n: nat,
) -> KeyConditions
    decreases operands, n,
{
    if n == 0 || n > operands@.len() {
        c
    } else {
        gathered(
            table,
            pk,
            gathered_operands(table, pk, c, operands, (n - 1) as nat),
            operands@[n - 1],
        )
    }
}

/// The text that a comparison asks for.
pub open spec fn wanted_text(op: ExprBinaryOp) -> Option<Seq<char>> {
    match *op.rhs {
        Expr::Value(value) => value@.as_str(),
        _ => None,
    }
}

/// Whether the comparisons on the local key are on its first columns, without a
/// gap, and with text.
pub open spec fn is_prefix_condition(
    sk: Map<ColumnId, ExprBinaryOp>,
    sk_columns: Seq<ColumnId>,
) -> bool {
    forall|k: int|
        0 <= k < sk_columns.len() && sk.contains_key(#[trigger] sk_columns[k]) ==> {
            &&& wanted_text(sk[sk_columns[k]]) is Some
            &&& forall|j: int| 0 <= j < k ==> sk.contains_key(#[trigger] sk_columns[j])
        }
}

/// The texts that the comparisons on the local key ask for, in its order.
pub open spec fn wanted_texts(
    sk: Map<ColumnId, ExprBinaryOp>,
    sk_columns: Seq<ColumnId>,
) -> Seq<Seq<char>>
    decreases sk_columns.len(),
{
    if sk_columns.len() == 0 {
        Seq::empty()
    } else {
        let rest = wanted_texts(sk, sk_columns.drop_last());
        if sk.contains_key(sk_columns.last()) {
            rest.push(wanted_text(sk[sk_columns.last()])->0)
        } else {
            rest
        }
    }
}

/// The condition on a key whose local part is joined: the partition's comparison
/// as it is, and a search for the beginning of the joined attribute.
pub open spec fn joined_condition(
    table: TableView,
    s: AttrsView,
    c: KeyConditions,
    sk_columns: Seq<ColumnId>,
) -> (AttrsView, Seq<char>) {
    let (t, pk_text) = written_op(table, s, c.pk->0);
    let prefix = terminated(wanted_texts(c.sk, sk_columns));
    let (u, name) = with_value(t, AttributeView::S(prefix));
    (
        AttrsView { names: u.names.insert("#sk_col"@, "__sk"@), ..u },
        pk_text + " AND begins_with(#sk_col, "@ + name + ")"@,
    )
}

/// The condition on a key.
pub open spec fn key_condition(
    table: TableView,
    s: AttrsView,
    pk: ColumnId,
    sk_columns: Seq<ColumnId>,
    concat_sk: bool,
    c: KeyConditions,
    expr: Expr,
) -> (AttrsView, Seq<char>) {
    if concat_sk {
        joined_condition(table, s, gathered(table, pk, c, expr), sk_columns)
    } else {
        written(table, s, expr)
    }
}

/// Whether an expression can be written as a condition on a key.
///
/// Where the local key is joined, there must be an equation on the partition's
/// column, and those on the local key must be on its first columns.
pub open spec fn key_condition_ready(
    table: TableView,
    pk: ColumnId,
    sk_columns: Seq<ColumnId>,
    concat_sk: bool,
    c: KeyConditions,
    expr: Expr,
) -> bool {
    if concat_sk {
        let all = gathered(table, pk, c, expr);
        &&& is_key_condition(table, expr)
        &&& all.pk is Some
        &&& all.pk->0.op == BinaryOp::Eq
        &&& is_supported(table, true, *all.pk->0.lhs)
        &&& is_supported(table, true, *all.pk->0.rhs)
        &&& is_prefix_condition(all.sk, sk_columns)
    } else {
        is_supported(table, true, expr)
    }
}

/// The comparisons by column, of which the last on a column counts.
pub open spec fn components(list: Seq<(ColumnId, &ExprBinaryOp)>) -> Map<ColumnId, ExprBinaryOp>
    decreases list.len(),
{
    if list.len() == 0 {
        Map::empty()
    } else {
        components(list.drop_last()).insert(list.last().0, *list.last().1)
    }
}

proof fn lemma_components(list: Seq<(ColumnId, &ExprBinaryOp)>, id: ColumnId, k: int)
    requires
        0 <= k <= list.len(),
        forall|j: int| k <= j < list.len() ==> (#[trigger] list[j]).0 != id,
        k > 0 ==> list[k - 1].0 == id,
    ensures
        k > 0 ==> components(list).contains_key(id) && components(list)[id] == *list[k - 1].1,
        k == 0 ==> !components(list).contains_key(id),
    decreases list.len(),
{
    if list.len() > k {
        let rest = list.drop_last();
        assert(list[list.len() - 1].0 != id);
        assert forall|j: int| k <= j < rest.len() implies (#[trigger] rest[j]).0 != id by {
            assert(rest[j] == list[j]);
        }
        lemma_components(rest, id, k);
    }
}

/// Writes the condition on the primary key.
pub struct BuildKeyExpression<'a> {
    /// The table that the expression is about
    pub table: &'a Table,
    pub attrs: &'a mut ExprAttrs,
    pub expr: &'a Expr,
    /// The column that picks the partition
    pub pk_column: &'a Column,
    /// The columns of the local key
    pub sk_columns: &'a Vec<ColumnId>,
    /// Whether the local key is joined into one attribute
    pub concat_sk: bool,
    /// The comparisons that are not on the partition's column
    pub sk_components: Vec<(ColumnId, &'a ExprBinaryOp)>,
    /// The comparison on the partition's column
    pub pk_component: Option<&'a ExprBinaryOp>,
}

impl<'a> BuildKeyExpression<'a> {
    /// The comparisons that have been found so far.
    pub open spec fn conditions(self) -> KeyConditions {
        KeyConditions {
            pk: match self.pk_component {
                Some(op) => Some(*op),
                None => None,
            },
            sk: components(self.sk_components@),
        }
    }

    /// Writes the condition.
    pub fn build(&mut self) -> (r: String)
        requires
            key_condition_ready(
                old(self).table@,
                old(self).pk_column.id,
                old(self).sk_columns@,
                old(self).concat_sk,
                old(self).conditions(),
                *old(self).expr,
            ),
        ensures
            (final(self).attrs@, r@) == key_condition(
                old(self).table@,
                old(self).attrs@,
                old(self).pk_column.id,
                old(self).sk_columns@,
                old(self).concat_sk,
                old(self).conditions(),
                *old(self).expr,
            ),
            final(self).conditions() == (if old(self).concat_sk {
                gathered(
                    old(self).table@,
                    old(self).pk_column.id,
                    old(self).conditions(),
                    *old(self).expr,
                )
            } else {
                old(self).conditions()
            }),
            final(self).table == old(self).table,
            final(self).pk_column == old(self).pk_column,
            final(self).sk_columns == old(self).sk_columns,
            final(self).expr == old(self).expr,
            final(self).concat_sk == old(self).concat_sk,
            *final(final(self).attrs) == *final(old(self).attrs),
    {
        let table = self.table;
        let expr = self.expr;
        if !self.concat_sk {
            return ddb_expression(table, self.attrs, true, expr);
        }

        // collect the subexpressions that test the sort keys and partition keys
        self.visit_expr(expr);
        let ghost c = self.conditions();

        // write the PK subexpression as it is
        let pk_expr = self.pk_component.unwrap();
        let mut key_expr = ddb_binary_op(table, self.attrs, true, pk_expr);

        // add the SK subexpressions as a begins_with
        let sk_prefix = self.sort_key_prefix();
        let sk_prefix = self.attrs.literal(sk_prefix);
        let ghost names = self.attrs.attr_names@;
        self.attrs.attr_names.insert("#sk_col".to_string(), "__sk".to_string());
        assert(name_views(self.attrs.attr_names@) =~= name_views(names).insert(
            "#sk_col"@,
            "__sk"@,
        ));
        key_expr.append(" AND begins_with(#sk_col, ");
        key_expr.append(sk_prefix.as_str());
        key_expr.append(")");
        key_expr
    }

    /// The beginning that the joined local key must have.
    fn sort_key_prefix(&self) -> (r: String)
        requires
            is_prefix_condition(self.conditions().sk, self.sk_columns@),
        ensures
            r@ == terminated(wanted_texts(self.conditions().sk, self.sk_columns@)),
    {
        let ghost sk = self.conditions().sk;
        let ghost columns = self.sk_columns@;
        let mut prefix = String::new();
        let mut i: usize = 0;
        assert(prefix@ =~= terminated(wanted_texts(sk, columns.take(0))));
        while i < self.sk_columns.len()
            invariant
                i <= columns.len(),
                columns == self.sk_columns@,
                sk == self.conditions().sk,
                is_prefix_condition(sk, columns),
                prefix@ == terminated(wanted_texts(sk, columns.take(i as int))),
            decreases columns.len() - i,
        {
            assert(columns.take(i + 1).drop_last() =~= columns.take(i as int));
            match self.find_component(self.sk_columns[i]) {
                Some(op) => {
                    assert(sk.contains_key(columns[i as int]));
                    match &*op.rhs {
                        Expr::Value(Value::String(val)) => {
                            delimited::append_terminated(&mut prefix, val.as_str());
                            proof {
                                let rest = wanted_texts(sk, columns.take(i as int));
                                assert(rest.push(val@).drop_last() =~= rest);
                            }
                        },
                        _ => {
                            assert(wanted_text(sk[columns[i as int]]) is Some);
                        },
                    }
                },
                None => {},
            }
            i = i + 1;
        }
        assert(columns.take(i as int) =~= columns);
        prefix
    }

    /// The last comparison on a column.
    pub(crate) fn find_component(&self, id: ColumnId) -> (r: Option<&'a ExprBinaryOp>)
        ensures
            match r {
                Some(op) => self.conditions().sk.contains_key(id) && self.conditions().sk[id]
                    == *op,
                None => !self.conditions().sk.contains_key(id),
            },
    {
        let n: usize = self.sk_components.len();
        let mut i: usize = n;
        while i > 0
            invariant
                i <= n,
                n == self.sk_components@.len(),
                forall|j: int| i <= j < n ==> (#[trigger] self.sk_components@[j]).0 != id,
            decreases i,
        {
            if self.sk_components[i - 1].0 == id {
                proof {
                    lemma_components(self.sk_components@, id, i as int);
                }
                return Some(self.sk_components[i - 1].1);
            }
            i = i - 1;
        }
        proof {
            lemma_components(self.sk_components@, id, 0);
        }
        None
    }

    /// Collects the comparisons of an expression.
    pub fn visit_expr(&mut self, i: &'a Expr)
        requires
            is_key_condition(old(self).table@, *i),
        ensures
            final(self).conditions() == gathered(
                old(self).table@,
                old(self).pk_column.id,
                old(self).conditions(),
                *i,
            ),
            final(self).table == old(self).table,
            final(self).attrs == old(self).attrs,
            final(self).pk_column == old(self).pk_column,
            final(self).sk_columns == old(self).sk_columns,
            final(self).expr == old(self).expr,
            final(self).concat_sk == old(self).concat_sk,
            *final(final(self).attrs) == *final(old(self).attrs),
        decreases i, 0nat,
    {
        match i {
            Expr::And(operands) => self.visit_expr_and(operands),
            Expr::BinaryOp(op) => self.visit_expr_binary_op(op),
            Expr::IsNull(inner) => self.visit_expr(inner),
            _ => {},
        }
    }

    /// Collects the comparisons of several expressions.
    fn visit_expr_and(&mut self, operands: &'a Vec<Expr>)
        requires
            forall|k: int|
                0 <= k < operands@.len() ==> is_key_condition(
                    old(self).table@,
                    #[trigger] operands@[k],
                ),
        ensures
            final(self).conditions() == gathered_operands(
                old(self).table@,
                old(self).pk_column.id,
                old(self).conditions(),
                *operands,
                operands@.len(),
            ),
            final(self).table == old(self).table,
            final(self).attrs == old(self).attrs,
            final(self).pk_column == old(self).pk_column,
            final(self).sk_columns == old(self).sk_columns,
            final(self).expr == old(self).expr,
            final(self).concat_sk == old(self).concat_sk,
            *final(final(self).attrs) == *final(old(self).attrs),
        decreases operands, operands@.len(),
    {
        let mut i: usize = 0;
        while i < operands.len()
            invariant
                i <= operands@.len(),
                forall|k: int|
                    0 <= k < operands@.len() ==> is_key_condition(
                        old(self).table@,
                        #[trigger] operands@[k],
                    ),
                self.conditions() == gathered_operands(
                    old(self).table@,
                    old(self).pk_column.id,
                    old(self).conditions(),
                    *operands,
                    i as nat,
                ),
                self.table == old(self).table,
                self.attrs == old(self).attrs,
                self.pk_column == old(self).pk_column,
                self.sk_columns == old(self).sk_columns,
                self.expr == old(self).expr,
                self.concat_sk == old(self).concat_sk,
                *final(self.attrs) == *final(old(self).attrs),
            decreases operands@.len() - i,
        {
            assert(is_key_condition(old(self).table@, operands@[i as int]));
            self.visit_expr(&operands[i]);
            i = i + 1;
        }
    }

    /// Collects a comparison.
    pub fn visit_expr_binary_op(&mut self, i: &'a ExprBinaryOp)
        requires
            is_equation(old(self).table@, *i),
        ensures
            final(self).conditions() == with_condition(
                old(self).table@,
                old(self).pk_column.id,
                old(self).conditions(),
                *i,
            ),
            final(self).table == old(self).table,
            final(self).attrs == old(self).attrs,
            final(self).pk_column == old(self).pk_column,
            final(self).sk_columns == old(self).sk_columns,
            final(self).expr == old(self).expr,
            final(self).concat_sk == old(self).concat_sk,
            *final(final(self).attrs) == *final(old(self).attrs),
    {
        match &*i.lhs {
            Expr::Reference(ExprReference::Column(column)) => {
                let id = self.table.columns[column.column].id;
                if self.pk_column.id == id {
                    self.pk_component = Some(i);
                } else {
                    let ghost before = self.sk_components@;
                    self.sk_components.push((id, i));
                    assert(self.sk_components@.drop_last() =~= before);
                }
            },
            _ => {},
        }
    }
}

/// Where the local key is joined, the search for its beginning finds exactly
/// the items whose first values of the local key are the ones asked for.
///
/// This needs text without the delimiter, and a first value in the item.
pub proof fn law_prefix_finds_exactly(
    sk: Map<ColumnId, ExprBinaryOp>,
    sk_columns: Seq<ColumnId>,
    values: Seq<ValueView>,
)
    requires
        strings(values).len() > 0,
        forall|i: int|
            0 <= i < strings(values).len() ==> delimiter_free(#[trigger] strings(values)[i]),
        forall|i: int|
            0 <= i < wanted_texts(sk, sk_columns).len() ==> delimiter_free(
                #[trigger] wanted_texts(sk, sk_columns)[i],
            ),
    ensures
        terminated(wanted_texts(sk, sk_columns)).is_prefix_of(sort_key_text(values))
            <==> wanted_texts(sk, sk_columns).is_prefix_of(strings(values)),
{
    let wanted = wanted_texts(sk, sk_columns);
    let parts = strings(values);
    if terminated(wanted).is_prefix_of(sort_key_text(values)) {
        delimited::law_prefix_search_is_exact(wanted, parts);
    }
    if wanted.is_prefix_of(parts) {
        assert(parts.take(wanted.len() as int) =~= wanted);
        delimited::law_partial_key_is_prefix(parts, wanted.len() as int);
    }
}

} // verus!

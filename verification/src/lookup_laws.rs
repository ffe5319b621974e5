//! What a look-up asks for.

use crate::attribute::{AttributeView, attribute_of};
use crate::create_laws::key_parts;
use crate::db::{ColumnId, IndexScope, TableView};
use crate::delimited::{delimiter_free, joined, law_partial_key_is_prefix,
    law_prefix_search_is_exact, terminated};
use crate::expression::{
    AttrsView, is_supported, referred, with_value, written, written_op, written_operands,
};
use crate::expression_laws::{
    is_known_name, keeps_meaning, law_column_placeholder_stands_for_name,
    law_expression_keeps_placeholders, law_value_placeholder_is_fresh, lemma_column_placeholder,
    lemma_operands_keep, placeholders_good, stands_for_column,
};
use crate::form_laws::{ended, law_each_component_is_ended, law_only_text_is_joined, text_only};
use crate::key_expression::{
    KeyConditions, compared, gathered, gathered_operands, is_equation, is_key_condition,
    joined_condition, wanted_text, wanted_texts, with_condition,
};
use crate::key_laws::columns_numbered;
use crate::keys::{sort_columns, sort_key_text, strings};
use crate::query_plan::{can_query, pk_condition, query};
use crate::stmt::{BinaryOp, Expr, ExprBinaryOp, ExprReference, ValueView};
use crate::table_plan::partition_column;
use vstd::prelude::*;

verus! {

/// The sign of a comparison.
pub open spec fn sign(op: BinaryOp) -> Seq<char> {
    match op {
        BinaryOp::Eq => " = "@,
        BinaryOp::Ne => " <> "@,
        BinaryOp::Gt => " > "@,
        BinaryOp::Ge => " >= "@,
        BinaryOp::Lt => " < "@,
        BinaryOp::Le => " <= "@,
    }
}

/// Whether a text is a comparison of the two given ones.
pub open spec fn is_comparison(
    text: Seq<char>,
    lhs: Seq<char>,
    op: BinaryOp,
    rhs: Seq<char>,
) -> bool {
    text == lhs + sign(op) + rhs
}

/// Whether a text asks if one of the two given ones begins with the other.
pub open spec fn is_prefix_test(text: Seq<char>, lhs: Seq<char>, rhs: Seq<char>) -> bool {
    text == "begins_with("@ + lhs + ", "@ + rhs + ")"@
}

/// Whether a text says what an expression says: it is the expression, with a placeholder
/// for each column that stands for the column's name, and one for each value that stands
/// for the value.
pub open spec fn says(
    table: TableView,
    names: Map<Seq<char>, Seq<char>>,
    values: Map<Seq<char>, AttributeView>,
    expr: Expr,
    text: Seq<char>,
) -> bool
    decreases expr,
{
    match expr {
        Expr::Value(value) => values.contains_key(text) && values[text] == attribute_of(value@),
        Expr::Reference(ExprReference::Column(column)) => {
            &&& column.nesting == 0
            &&& column.column < table.columns.len()
            &&& names.contains_key(text)
            &&& names[text] == table.columns[column.column as int].name
        },
        Expr::BinaryOp(op) => exists|lhs: Seq<char>, rhs: Seq<char>|
            {
                &&& says(table, names, values, *op.lhs, lhs)
                &&& says(table, names, values, *op.rhs, rhs)
                &&& #[trigger] is_comparison(text, lhs, op.op, rhs)
            },
        Expr::BeginsWith(begins_with) => exists|lhs: Seq<char>, rhs: Seq<char>|
            {
                &&& says(table, names, values, *begins_with.expr, lhs)
                &&& says(table, names, values, *begins_with.pattern, rhs)
                &&& #[trigger] is_prefix_test(text, lhs, rhs)
            },
        Expr::And(operands) => exists|parts: Seq<Seq<char>>|
            {
                &&& parts.len() == operands@.len()
                &&& text == #[trigger] joined(parts, " AND "@)
                &&& forall|i: int|
                    0 <= i < operands@.len() ==> says(
                        table,
                        names,
                        values,
                        #[trigger] operands@[i],
                        parts[i],
                    )
            },
        _ => false,
    }
}

/// A text goes on saying the same while its placeholders stand for the same.
proof fn lemma_still_says(table: TableView, s: AttrsView, t: AttrsView, expr: Expr, text: Seq<char>)
    requires
        keeps_meaning(s, t),
        says(table, s.names, s.values, expr, text),
    ensures
        says(table, t.names, t.values, expr, text),
    decreases expr,
{
    match expr {
        Expr::Value(value) => {},
        Expr::Reference(ExprReference::Column(column)) => {},
        Expr::BinaryOp(op) => {
            let (lhs, rhs) = choose|lhs: Seq<char>, rhs: Seq<char>|
                {
                    &&& says(table, s.names, s.values, *op.lhs, lhs)
                    &&& says(table, s.names, s.values, *op.rhs, rhs)
                    &&& #[trigger] is_comparison(text, lhs, op.op, rhs)
                };
            lemma_still_says(table, s, t, *op.lhs, lhs);
            lemma_still_says(table, s, t, *op.rhs, rhs);
            assert(is_comparison(text, lhs, op.op, rhs));
        },
        Expr::BeginsWith(begins_with) => {
            let (lhs, rhs) = choose|lhs: Seq<char>, rhs: Seq<char>|
                {
                    &&& says(table, s.names, s.values, *begins_with.expr, lhs)
                    &&& says(table, s.names, s.values, *begins_with.pattern, rhs)
                    &&& #[trigger] is_prefix_test(text, lhs, rhs)
                };
            lemma_still_says(table, s, t, *begins_with.expr, lhs);
            lemma_still_says(table, s, t, *begins_with.pattern, rhs);
            assert(is_prefix_test(text, lhs, rhs));
        },
        Expr::And(operands) => {
            let parts = choose|parts: Seq<Seq<char>>|
                {
                    &&& parts.len() == operands@.len()
                    &&& text == #[trigger] joined(parts, " AND "@)
                    &&& forall|i: int|
                        0 <= i < operands@.len() ==> says(
                            table,
                            s.names,
                            s.values,
                            #[trigger] operands@[i],
                            parts[i],
                        )
                };
            assert forall|i: int| 0 <= i < operands@.len() implies says(
                table,
                t.names,
                t.values,
                #[trigger] operands@[i],
                parts[i],
            ) by {
                lemma_still_says(table, s, t, operands@[i], parts[i]);
            }
            assert(text == joined(parts, " AND "@));
        },
        _ => {},
    }
}

/// Writing an expression gives a text that says what the expression says, under the
/// placeholders that are there then.
pub proof fn law_written_text_says_expression(
    table: TableView,
    s: AttrsView,
    primary: bool,
    expr: Expr,
)
    requires
        placeholders_good(table, s),
        columns_numbered(table),
        table.columns.len() <= usize::MAX,
        is_supported(table, primary, expr),
    ensures
        ({
            let (t, text) = written(table, s, expr);
            says(table, t.names, t.values, expr, text)
        }),
    decreases expr, 0nat,
{
    let (t, text) = written(table, s, expr);
    match expr {
        Expr::BinaryOp(op) => {
            assert(written(table, s, expr) == written_op(table, s, op));
            let (u, lhs) = written(table, s, *op.lhs);
            let (v, rhs) = written(table, u, *op.rhs);
            law_expression_keeps_placeholders(table, s, primary, *op.lhs);
            law_expression_keeps_placeholders(table, u, primary, *op.rhs);
            law_written_text_says_expression(table, s, primary, *op.lhs);
            law_written_text_says_expression(table, u, primary, *op.rhs);
            lemma_still_says(table, u, v, *op.lhs, lhs);
            assert(is_comparison(text, lhs, op.op, rhs));
            assert(says(table, t.names, t.values, *op.lhs, lhs));
            assert(says(table, t.names, t.values, *op.rhs, rhs));
        },
        Expr::Reference(reference) => {
            law_column_placeholder_stands_for_name(table, s, referred(reference)->0 as int);
        },
        Expr::Value(value) => {
            law_value_placeholder_is_fresh(table, s, attribute_of(value@));
        },
        Expr::And(operands) => {
            lemma_operands_say(table, s, primary, operands, operands@.len());
            let parts = written_operands(table, s, operands, operands@.len()).1;
            assert(text == joined(parts, " AND "@));
        },
        Expr::BeginsWith(begins_with) => {
            let (u, lhs) = written(table, s, *begins_with.expr);
            let (v, rhs) = written(table, u, *begins_with.pattern);
            law_expression_keeps_placeholders(table, s, primary, *begins_with.expr);
            law_expression_keeps_placeholders(table, u, primary, *begins_with.pattern);
            law_written_text_says_expression(table, s, primary, *begins_with.expr);
            law_written_text_says_expression(table, u, primary, *begins_with.pattern);
            lemma_still_says(table, u, v, *begins_with.expr, lhs);
            assert(is_prefix_test(text, lhs, rhs));
            assert(says(table, t.names, t.values, *begins_with.expr, lhs));
            assert(says(table, t.names, t.values, *begins_with.pattern, rhs));
        },
        _ => {},
    }
}

proof fn lemma_operands_say(
    table: TableView,
    s: AttrsView,
    primary: bool,
    operands: Vec<Expr>,
    n: nat,
)
    requires
        placeholders_good(table, s),
        columns_numbered(table),
        table.columns.len() <= usize::MAX,
        n <= operands@.len(),
        forall|i: int|
            0 <= i < operands@.len() ==> is_supported(table, primary, #[trigger] operands@[i]),
    ensures
        ({
            let (t, parts) = written_operands(table, s, operands, n);
            &&& parts.len() == n
            &&& forall|i: int|
                0 <= i < n ==> says(
                    table,
                    t.names,
                    t.values,
                    #[trigger] operands@[i],
                    parts[i],
                )
        }),
    decreases operands, n,
{
    if n > 0 {
        let m = (n - 1) as nat;
        let (t, parts) = written_operands(table, s, operands, m);
        let (u, part) = written(table, t, operands@[n - 1]);
        lemma_operands_say(table, s, primary, operands, m);
        lemma_operands_keep(table, s, primary, operands, m);
        assert(is_supported(table, primary, operands@[n - 1]));
        law_expression_keeps_placeholders(table, t, primary, operands@[n - 1]);
        law_written_text_says_expression(table, t, primary, operands@[n - 1]);
        assert forall|i: int| 0 <= i < n implies says(
            table,
            u.names,
            u.values,
            #[trigger] operands@[i],
            parts.push(part)[i],
        ) by {
            if i < m {
                lemma_still_says(table, t, u, operands@[i], parts[i]);
            }
        }
    }
}

/// The comparisons that an expression is made of, in their order.
pub open spec fn comparisons(expr: Expr) -> Seq<ExprBinaryOp>
    decreases expr, 0nat,
{
    match expr {
        Expr::BinaryOp(op) => seq![op],
        Expr::And(operands) => comparisons_of(operands, operands@.len()),
        Expr::IsNull(inner) => comparisons(*inner),
        _ => Seq::empty(),
    }
}

/// The comparisons that the first `n` operands are made of, in their order.
pub open spec fn comparisons_of(operands: Vec<Expr>, n: nat) -> Seq<ExprBinaryOp>
    decreases operands, n,
{
    if n == 0 || n > operands@.len() {
        Seq::empty()
    } else {
        comparisons_of(operands, (n - 1) as nat) + comparisons(operands@[n - 1])
    }
}

/// Keeps a comparison if it is on the given column.
pub open spec fn on_column(table: TableView, id: ColumnId) -> spec_fn(
    ExprBinaryOp,
) -> Option<ExprBinaryOp> {
    |op: ExprBinaryOp|
        match *op.lhs {
            Expr::Reference(ExprReference::Column(column)) => if table.columns[column.column as int].id
                == id {
                Some(op)
            } else {
                None
            },
            _ => None,
        }
}

/// The comparisons of an expression on a column, in their order.
pub open spec fn asked(table: TableView, expr: Expr, id: ColumnId) -> Seq<ExprBinaryOp> {
    comparisons(expr).filter_map(on_column(table, id))
}

proof fn lemma_kept_of_sum(
    a: Seq<ExprBinaryOp>,
    b: Seq<ExprBinaryOp>,
    keep: spec_fn(ExprBinaryOp) -> Option<ExprBinaryOp>,
)
    ensures
        (a + b).filter_map(keep) == a.filter_map(keep) + b.filter_map(keep),
    decreases b.len(),
{
    if b.len() == 0 {
        assert(a + b =~= a);
        assert(a.filter_map(keep) + b.filter_map(keep) =~= a.filter_map(keep));
    } else {
        lemma_kept_of_sum(a, b.drop_last(), keep);
        assert((a + b).drop_last() =~= a + b.drop_last());
        assert((a + b).filter_map(keep) =~= a.filter_map(keep) + b.filter_map(keep));
    }
}

/// Whether `d` is `c` with the given comparisons added, each to those on its column: of
/// those on one column the last counts.
pub open spec fn is_updated(
    pk: ColumnId,
    c: KeyConditions,
    d: KeyConditions,
    table: TableView,
    all: Seq<ExprBinaryOp>,
) -> bool {
    let on_pk = all.filter_map(on_column(table, pk));
    &&& d.pk == (if on_pk.len() > 0 {
        Some(on_pk.last())
    } else {
        c.pk
    })
    &&& forall|id: ColumnId|
        #![trigger d.sk.contains_key(id)]
        #![trigger d.sk[id]]
        {
            let on_id = all.filter_map(on_column(table, id));
            if id != pk && on_id.len() > 0 {
                d.sk.contains_key(id) && d.sk[id] == on_id.last()
            } else {
                d.sk.contains_key(id) == c.sk.contains_key(id) && d.sk[id] == c.sk[id]
            }
        }
}

proof fn lemma_updated_twice(
    pk: ColumnId,
    c: KeyConditions,
    d: KeyConditions,
    e: KeyConditions,
    table: TableView,
    a: Seq<ExprBinaryOp>,
    b: Seq<ExprBinaryOp>,
)
    requires
        is_updated(pk, c, d, table, a),
        is_updated(pk, d, e, table, b),
    ensures
        is_updated(pk, c, e, table, a + b),
{
    let all = a + b;
    lemma_kept_of_sum(a, b, on_column(table, pk));
    assert forall|id: ColumnId|
        #![trigger e.sk.contains_key(id)]
        #![trigger e.sk[id]]
        {
            let on_id = all.filter_map(on_column(table, id));
            if id != pk && on_id.len() > 0 {
                e.sk.contains_key(id) && e.sk[id] == on_id.last()
            } else {
                e.sk.contains_key(id) == c.sk.contains_key(id) && e.sk[id] == c.sk[id]
            }
        } by {
        lemma_kept_of_sum(a, b, on_column(table, id));
        assert(d.sk.contains_key(id) || !d.sk.contains_key(id));
        assert(e.sk.contains_key(id) || !e.sk.contains_key(id));
    }
}

pub proof fn lemma_gathered(table: TableView, pk: ColumnId, c: KeyConditions, expr: Expr)
    requires
        is_key_condition(table, expr),
    ensures
        is_updated(pk, c, gathered(table, pk, c, expr), table, comparisons(expr)),
    decreases expr, 0nat,
{
    match expr {
        Expr::And(operands) => {
            lemma_gathered_operands(table, pk, c, operands, operands@.len());
            assert(comparisons(expr) == comparisons_of(operands, operands@.len()));
        },
        Expr::BinaryOp(op) => {
            let d = with_condition(table, pk, c, op);
            assert(is_equation(table, op));
            let all = seq![op];
            assert forall|id: ColumnId| #[trigger] all.filter_map(on_column(table, id)) == (if table.columns[compared(
                op,
            )->0 as int].id == id {
                all
            } else {
                Seq::empty()
            }) by {
                Seq::lemma_filter_map_singleton(op, on_column(table, id));
            }
            assert(is_updated(pk, c, d, table, all));
        },
        Expr::IsNull(inner) => {
            lemma_gathered(table, pk, c, *inner);
        },
        _ => {},
    }
}

proof fn lemma_gathered_operands(
    table: TableView,
    pk: ColumnId,
    c: KeyConditions,
    operands: Vec<Expr>,
    n: nat,
)
    requires
        n <= operands@.len(),
        forall|i: int|
            0 <= i < operands@.len() ==> is_key_condition(table, #[trigger] operands@[i]),
    ensures
        is_updated(
            pk,
            c,
            gathered_operands(table, pk, c, operands, n),
            table,
            comparisons_of(operands, n),
        ),
    decreases operands, n,
{
    if n > 0 {
        let m = (n - 1) as nat;
        lemma_gathered_operands(table, pk, c, operands, m);
        let d = gathered_operands(table, pk, c, operands, m);
        assert(is_key_condition(table, operands@[n - 1]));
        lemma_gathered(table, pk, d, operands@[n - 1]);
        lemma_updated_twice(
            pk,
            c,
            d,
            gathered(table, pk, d, operands@[n - 1]),
            table,
            comparisons_of(operands, m),
            comparisons(operands@[n - 1]),
        );
    }
}

/// Whether the last comparison on the column is with the given text.
pub open spec fn asks_for(table: TableView, expr: Expr, id: ColumnId, text: Seq<char>) -> bool {
    &&& asked(table, expr, id).len() > 0
    &&& match *asked(table, expr, id).last().rhs {
        Expr::Value(value) => value@ == ValueView::String(text),
        _ => false,
    }
}

/// Whether an expression asks for the given texts in the first columns, and for nothing in
/// the others.
pub open spec fn asks_for_first(
    table: TableView,
    expr: Expr,
    columns: Seq<ColumnId>,
    texts: Seq<Seq<char>>,
) -> bool {
    &&& texts.len() <= columns.len()
    &&& forall|j: int|
        0 <= j < texts.len() ==> asks_for(table, expr, #[trigger] columns[j], texts[j])
    &&& forall|j: int|
        texts.len() <= j < columns.len() ==> asked(table, expr, #[trigger] columns[j]).len() == 0
}

proof fn lemma_wanted(
    table: TableView,
    pk: ColumnId,
    expr: Expr,
    columns: Seq<ColumnId>,
    texts: Seq<Seq<char>>,
    m: nat,
)
    requires
        is_key_condition(table, expr),
        asks_for_first(table, expr, columns, texts),
        forall|j: int| 0 <= j < columns.len() ==> #[trigger] columns[j] != pk,
        m <= columns.len(),
    ensures
        wanted_texts(
            gathered(table, pk, KeyConditions::empty(), expr).sk,
            columns.take(m as int),
        ) == (if m <= texts.len() {
            texts.take(m as int)
        } else {
            texts
        }),
    decreases m,
{
    let sk = gathered(table, pk, KeyConditions::empty(), expr).sk;
    if m > 0 {
        let k = (m - 1) as nat;
        lemma_wanted(table, pk, expr, columns, texts, k);
        lemma_gathered(table, pk, KeyConditions::empty(), expr);
        assert(columns.take(m as int).drop_last() =~= columns.take(k as int));
        let id = columns[k as int];
        assert(columns.take(m as int).last() == id);
        assert(id != pk);
        assert(sk.contains_key(id) || !sk.contains_key(id));
        if m <= texts.len() {
            assert(asks_for(table, expr, id, texts[k as int]));
            assert(sk.contains_key(id));
            assert(wanted_text(sk[id]) == Some(texts[k as int]));
            assert(texts.take(m as int) =~= texts.take(k as int).push(texts[k as int]));
        } else {
            assert(asked(table, expr, id).len() == 0);
            assert(!sk.contains_key(id));
            if m == texts.len() + 1 {
                assert(texts.take(k as int) =~= texts);
            }
        }
    } else {
        assert(wanted_texts(sk, columns.take(0)) =~= texts.take(0));
    }
}

/// Whether the condition on the key asks for what `text` says, and for the joined local
/// key to begin with what the placeholder stands for.
pub open spec fn searches(condition: Seq<char>, text: Seq<char>, placeholder: Seq<char>) -> bool {
    condition == text + " AND begins_with(#sk_col, "@ + placeholder + ")"@
}

/// Writing an expression makes no placeholder like that of the joined local key.
proof fn lemma_not_joined_name(table: TableView, s: AttrsView, primary: bool, expr: Expr)
    requires
        !s.names.contains_key("#sk_col"@),
        is_supported(table, primary, expr),
    ensures
        !written(table, s, expr).0.names.contains_key("#sk_col"@),
    decreases expr, 0nat,
{
    match expr {
        Expr::BinaryOp(op) => {
            lemma_not_joined_name(table, s, primary, *op.lhs);
            lemma_not_joined_name(table, written(table, s, *op.lhs).0, primary, *op.rhs);
            assert(written(table, s, expr) == written_op(table, s, op));
        },
        Expr::Reference(reference) => {
            let id = table.columns[referred(reference)->0 as int].id;
            lemma_column_placeholder(id, id);
        },
        Expr::And(operands) => {
            lemma_operands_not_joined_name(table, s, primary, operands, operands@.len());
        },
        Expr::BeginsWith(begins_with) => {
            lemma_not_joined_name(table, s, primary, *begins_with.expr);
            lemma_not_joined_name(
                table,
                written(table, s, *begins_with.expr).0,
                primary,
                *begins_with.pattern,
            );
        },
        _ => {},
    }
}

proof fn lemma_operands_not_joined_name(
    table: TableView,
    s: AttrsView,
    primary: bool,
    operands: Vec<Expr>,
    n: nat,
)
    requires
        !s.names.contains_key("#sk_col"@),
        n <= operands@.len(),
        forall|i: int|
            0 <= i < operands@.len() ==> is_supported(table, primary, #[trigger] operands@[i]),
    ensures
        !written_operands(table, s, operands, n).0.names.contains_key("#sk_col"@),
    decreases operands, n,
{
    if n > 0 {
        lemma_operands_not_joined_name(table, s, primary, operands, (n - 1) as nat);
        assert(is_supported(table, primary, operands@[n - 1]));
        lemma_not_joined_name(
            table,
            written_operands(table, s, operands, (n - 1) as nat).0,
            primary,
            operands@[n - 1],
        );
    }
}

proof fn lemma_joined_condition(
    table: TableView,
    c: KeyConditions,
    columns: Seq<ColumnId>,
)
    requires
        columns_numbered(table),
        table.columns.len() <= usize::MAX,
        c.pk is Some,
        c.pk->0.op == BinaryOp::Eq,
        is_supported(table, true, *c.pk->0.lhs),
        is_supported(table, true, *c.pk->0.rhs),
    ensures
        ({
            let (s, condition) = joined_condition(table, AttrsView::empty(), c, columns);
            &&& placeholders_good(table, s)
            &&& exists|text: Seq<char>, placeholder: Seq<char>|
                {
                    &&& #[trigger] searches(condition, text, placeholder)
                    &&& says(table, s.names, s.values, Expr::BinaryOp(c.pk->0), text)
                    &&& s.names.contains_key("#sk_col"@)
                    &&& s.names["#sk_col"@] == "__sk"@
                    &&& s.values.contains_key(placeholder)
                    &&& s.values[placeholder] == AttributeView::S(
                        terminated(wanted_texts(c.sk, columns)),
                    )
                }
        }),
{
    let start = AttrsView::empty();
    let expr = Expr::BinaryOp(c.pk->0);
    let value = AttributeView::S(terminated(wanted_texts(c.sk, columns)));
    assert(is_supported(table, true, expr));
    assert(placeholders_good(table, start));
    law_expression_keeps_placeholders(table, start, true, expr);
    law_written_text_says_expression(table, start, true, expr);
    assert(written(table, start, expr) == written_op(table, start, c.pk->0));
    let (t, text) = written_op(table, start, c.pk->0);
    let (u, placeholder) = with_value(t, value);
    law_value_placeholder_is_fresh(table, t, value);
    let s = AttrsView { names: u.names.insert("#sk_col"@, "__sk"@), ..u };
    assert forall|i: int| 0 <= i < s.columns.len() implies #[trigger] stands_for_column(
        table,
        s,
        i,
    ) by {
        assert(stands_for_column(table, u, i));
        lemma_column_placeholder(s.columns[i].0, s.columns[i].0);
    }
    assert forall|n: Seq<char>| #[trigger] s.names.contains_key(n) implies is_known_name(s, n) by {
        if n != "#sk_col"@ {
            assert(is_known_name(u, n));
        }
    }
    assert(placeholders_good(table, s));
    lemma_not_joined_name(table, start, true, expr);
    assert(keeps_meaning(u, s));
    lemma_still_says(table, t, u, expr, text);
    lemma_still_says(table, u, s, expr, text);
    let condition = joined_condition(table, start, c, columns).1;
    assert(searches(condition, text, placeholder));
}

/// A look-up is sent to the table. It sends a filter if and only if a further condition was
/// asked for, and the filter says what that condition says, under the placeholders of the
/// request. So it holds of exactly the items of which the condition holds.
pub proof fn law_filter_is_sent(table: TableView, pk_filter: Expr, filter: Option<Expr>)
    requires
        columns_numbered(table),
        table.columns.len() <= usize::MAX,
        can_query(table, pk_filter, filter),
    ensures
        ({
            let view = query(table, pk_filter, filter);
            &&& view.table == table.name
            &&& filter is Some <==> view.filter is Some
            &&& filter matches Some(expr) ==> says(
                table,
                view.names,
                view.values,
                expr,
                view.filter->0,
            )
        }),
{
    lemma_pk_condition(table, pk_filter, filter);
    let (s, condition) = pk_condition(table, pk_filter);
    match filter {
        Some(expr) => {
            law_written_text_says_expression(table, s, false, expr);
        },
        None => {},
    }
}

proof fn lemma_pk_condition(table: TableView, pk_filter: Expr, filter: Option<Expr>)
    requires
        columns_numbered(table),
        table.columns.len() <= usize::MAX,
        can_query(table, pk_filter, filter),
    ensures
        placeholders_good(table, pk_condition(table, pk_filter).0),
        ({
            let s = pk_condition(table, pk_filter).0;
            let view = query(table, pk_filter, filter);
            keeps_meaning(s, AttrsView { columns: s.columns, names: view.names, values: view.values })
        }),
{
    let pk = partition_column(table).id;
    let sk_cols = sort_columns(table);
    let (s, condition) = pk_condition(table, pk_filter);
    if sk_cols.len() > 1 {
        let c = gathered(table, pk, KeyConditions::empty(), pk_filter);
        lemma_joined_condition(table, c, sk_cols);
    } else {
        assert(placeholders_good(table, AttrsView::empty()));
        law_expression_keeps_placeholders(table, AttrsView::empty(), true, pk_filter);
    }
    match filter {
        Some(expr) => {
            law_expression_keeps_placeholders(table, s, false, expr);
        },
        None => {},
    }
}

/// Where the local key is at most one column, the condition on the key says what was asked
/// for.
pub proof fn law_plain_key_condition_says_filter(
    table: TableView,
    pk_filter: Expr,
    filter: Option<Expr>,
)
    requires
        columns_numbered(table),
        table.columns.len() <= usize::MAX,
        can_query(table, pk_filter, filter),
        key_parts(table, IndexScope::Local).len() <= 1,
    ensures
        ({
            let view = query(table, pk_filter, filter);
            says(table, view.names, view.values, pk_filter, view.key_condition)
        }),
{
    crate::form_laws::law_sort_columns_follow_index(table);
    lemma_pk_condition(table, pk_filter, filter);
    let view = query(table, pk_filter, filter);
    let (s, condition) = pk_condition(table, pk_filter);
    assert(placeholders_good(table, AttrsView::empty()));
    law_written_text_says_expression(table, AttrsView::empty(), true, pk_filter);
    lemma_still_says(
        table,
        s,
        AttrsView { columns: s.columns, names: view.names, values: view.values },
        pk_filter,
        condition,
    );
}

/// Where the local key is joined, the condition on the key says what the last comparison on
/// the partition's column says, and searches for a beginning of the joined key. If the
/// first `k` columns of the local key were asked to equal `k` texts, and the others nothing,
/// the beginning is these texts, in the order of the key, each with `#` behind it.
pub proof fn law_first_texts_are_searched(
    table: TableView,
    pk_filter: Expr,
    filter: Option<Expr>,
    texts: Seq<Seq<char>>,
)
    requires
        columns_numbered(table),
        table.columns.len() <= usize::MAX,
        can_query(table, pk_filter, filter),
        key_parts(table, IndexScope::Local).len() > 1,
        !key_parts(table, IndexScope::Local).contains(
            key_parts(table, IndexScope::Partition)[0],
        ),
        forall|j: int|
            0 <= j < key_parts(table, IndexScope::Local).len() ==> (#[trigger] key_parts(
                table,
                IndexScope::Local,
            )[j]).table == table.id,
        key_parts(table, IndexScope::Partition)[0].table == table.id,
        asks_for_first(table, pk_filter, key_parts(table, IndexScope::Local), texts),
    ensures
        ({
            let view = query(table, pk_filter, filter);
            let pk = key_parts(table, IndexScope::Partition)[0];
            exists|text: Seq<char>, placeholder: Seq<char>|
                {
                    &&& #[trigger] searches(view.key_condition, text, placeholder)
                    &&& asked(table, pk_filter, pk).len() > 0
                    &&& says(
                        table,
                        view.names,
                        view.values,
                        Expr::BinaryOp(asked(table, pk_filter, pk).last()),
                        text,
                    )
                    &&& view.names.contains_key("#sk_col"@)
                    &&& view.names["#sk_col"@] == "__sk"@
                    &&& view.values.contains_key(placeholder)
                    &&& view.values[placeholder] == AttributeView::S(
                        texts.map_values(ended()).flatten(),
                    )
                }
        }),
{
    let local = key_parts(table, IndexScope::Local);
    let pk = partition_column(table).id;
    let sk_cols = sort_columns(table);
    crate::form_laws::law_sort_columns_follow_index(table);
    crate::create_laws::lemma_scoped_parts(
        table.indices[table.key_index.index as int].columns,
        IndexScope::Partition,
    );
    crate::create_laws::lemma_scoped_parts(
        table.indices[table.key_index.index as int].columns,
        IndexScope::Local,
    );
    crate::table_plan::lemma_scoped(
        table,
        table.indices[table.key_index.index as int].columns,
        IndexScope::Partition,
    );
    crate::table_plan::lemma_scoped(
        table,
        table.indices[table.key_index.index as int].columns,
        IndexScope::Local,
    );
    let at = key_parts(table, IndexScope::Partition)[0];
    assert(table.has_column(at));
    assert(table.columns[at.index as int].id == at);
    assert(pk == at);
    assert forall|j: int| 0 <= j < sk_cols.len() implies #[trigger] sk_cols[j] == local[j] by {
        assert(local[j].table == table.id);
        assert(table.has_column(local[j]));
        assert(table.columns[local[j].index as int].id == local[j]);
    }
    assert(sk_cols =~= local);
    let c = gathered(table, pk, KeyConditions::empty(), pk_filter);
    lemma_gathered(table, pk, KeyConditions::empty(), pk_filter);
    lemma_wanted(table, pk, pk_filter, sk_cols, texts, sk_cols.len());
    assert(sk_cols.take(sk_cols.len() as int) =~= sk_cols);
    if texts.len() == sk_cols.len() {
        assert(texts.take(texts.len() as int) =~= texts);
    }
    law_each_component_is_ended(texts);
    lemma_joined_condition(table, c, sk_cols);
    lemma_pk_condition(table, pk_filter, filter);
    let (s, condition) = pk_condition(table, pk_filter);
    let view = query(table, pk_filter, filter);
    let t = AttrsView { columns: s.columns, names: view.names, values: view.values };
    let (text, placeholder) = choose|text: Seq<char>, placeholder: Seq<char>|
        {
            &&& #[trigger] searches(condition, text, placeholder)
            &&& says(table, s.names, s.values, Expr::BinaryOp(c.pk->0), text)
            &&& s.names.contains_key("#sk_col"@)
            &&& s.names["#sk_col"@] == "__sk"@
            &&& s.values.contains_key(placeholder)
            &&& s.values[placeholder] == AttributeView::S(
                terminated(wanted_texts(c.sk, sk_cols)),
            )
        };
    lemma_still_says(table, s, t, Expr::BinaryOp(c.pk->0), text);
    assert(searches(view.key_condition, text, placeholder));
}

/// An item whose joined local key is made of the given values is found by a search for
/// texts if and only if the first of these values, one for each text, are the texts.
///
/// This needs text without the delimiter, and a first value in the item.
pub proof fn law_search_finds_exactly(texts: Seq<Seq<char>>, values: Seq<ValueView>)
    requires
        values.len() > 0,
        forall|i: int|
            0 <= i < values.len() ==> (#[trigger] values[i]) is String && !(
            values[i]->String_0.contains('#')),
        forall|i: int| 0 <= i < texts.len() ==> !(#[trigger] texts[i]).contains('#'),
    ensures
        texts.map_values(ended()).flatten().is_prefix_of(sort_key_text(values)) <==> {
            &&& texts.len() <= values.len()
            &&& forall|i: int|
                0 <= i < texts.len() ==> (#[trigger] values[i]) == ValueView::String(texts[i])
        },
{
    let parts = values.map_values(|v: ValueView| v->String_0);
    law_only_text_is_joined(values);
    lemma_all_text(values);
    assert(strings(values) =~= parts);
    law_each_component_is_ended(texts);
    let prefix = texts.map_values(ended()).flatten();
    assert forall|i: int| 0 <= i < parts.len() implies delimiter_free(#[trigger] parts[i]) by {
        assert(values[i] is String);
    }
    assert forall|i: int| 0 <= i < texts.len() implies delimiter_free(#[trigger] texts[i]) by {}
    if prefix.is_prefix_of(sort_key_text(values)) {
        law_prefix_search_is_exact(texts, parts);
        assert forall|i: int| 0 <= i < texts.len() implies (#[trigger] values[i])
            == ValueView::String(texts[i]) by {
            assert(texts[i] == parts[i]);
        }
    }
    if texts.len() <= values.len() && forall|i: int|
        0 <= i < texts.len() ==> (#[trigger] values[i]) == ValueView::String(texts[i]) {
        assert(parts.take(texts.len() as int) =~= texts);
        law_partial_key_is_prefix(parts, texts.len() as int);
    }
}

proof fn lemma_all_text(values: Seq<ValueView>)
    requires
        forall|i: int| 0 <= i < values.len() ==> (#[trigger] values[i]) is String,
    ensures
        values.filter_map(text_only()) == values.map_values(|v: ValueView| v->String_0),
    decreases values.len(),
{
    if values.len() > 0 {
        let rest = values.drop_last();
        assert forall|i: int| 0 <= i < rest.len() implies (#[trigger] rest[i]) is String by {
            assert(rest[i] == values[i]);
        }
        lemma_all_text(rest);
        assert(values[values.len() - 1] is String);
    }
    assert(values.filter_map(text_only()) =~= values.map_values(|v: ValueView| v->String_0));
}

/// Whether an expression refers to the column at the given place of its table.
pub open spec fn refers_to(expr: Expr, i: int) -> bool
    decreases expr,
{
    match expr {
        Expr::Reference(ExprReference::Column(column)) => column.column == i,
        Expr::BinaryOp(op) => refers_to(*op.lhs, i) || refers_to(*op.rhs, i),
        Expr::BeginsWith(begins_with) => refers_to(*begins_with.expr, i) || refers_to(
            *begins_with.pattern,
            i,
        ),
        Expr::And(operands) => exists|k: int|
            0 <= k < operands@.len() && refers_to(#[trigger] operands@[k], i),
        _ => false,
    }
}

/// How many values an expression holds.
pub open spec fn values_in(expr: Expr) -> nat
    decreases expr, 0nat,
{
    match expr {
        Expr::Value(_) => 1,
        Expr::BinaryOp(op) => values_in(*op.lhs) + values_in(*op.rhs),
        Expr::BeginsWith(begins_with) => values_in(*begins_with.expr) + values_in(
            *begins_with.pattern,
        ),
        Expr::And(operands) => values_in_first(operands, operands@.len()),
        _ => 0,
    }
}

/// How many values the first `n` operands hold.
pub open spec fn values_in_first(operands: Vec<Expr>, n: nat) -> nat
    decreases operands, n,
{
    if n == 0 || n > operands@.len() {
        0
    } else {
        values_in_first(operands, (n - 1) as nat) + values_in(operands@[n - 1])
    }
}

/// Whether the name placeholder stands for a column that the expression refers to.
pub open spec fn is_named_by(
    table: TableView,
    names: Map<Seq<char>, Seq<char>>,
    expr: Expr,
    name: Seq<char>,
) -> bool {
    exists|i: int|
        0 <= i < table.columns.len() && refers_to(expr, i) && names[name] == (
        #[trigger] table.columns[i]).name
}

/// A placeholder that is kept goes on standing for a column of the expression.
proof fn lemma_still_named(table: TableView, t: AttrsView, u: AttrsView, part: Expr, whole: Expr)
    requires
        keeps_meaning(t, u),
        forall|i: int| refers_to(part, i) ==> #[trigger] refers_to(whole, i),
    ensures
        forall|name: Seq<char>| #[trigger]
            t.names.contains_key(name) && is_named_by(table, t.names, part, name) ==> is_named_by(
                table,
                u.names,
                whole,
                name,
            ),
{
    assert forall|name: Seq<char>| #[trigger]
        t.names.contains_key(name) && is_named_by(table, t.names, part, name) implies is_named_by(
        table,
        u.names,
        whole,
        name,
    ) by {
        let i = choose|i: int|
            0 <= i < table.columns.len() && refers_to(part, i) && t.names[name] == (
            #[trigger] table.columns[i]).name;
        assert(refers_to(whole, i));
        assert(u.names[name] == table.columns[i].name);
    }
}

/// Writing an expression makes a placeholder for each of its values, and name placeholders
/// for columns that it refers to alone.
pub proof fn law_no_other_placeholders(
    table: TableView,
    s: AttrsView,
    primary: bool,
    expr: Expr,
)
    requires
        placeholders_good(table, s),
        columns_numbered(table),
        table.columns.len() <= usize::MAX,
        is_supported(table, primary, expr),
    ensures
        ({
            let t = written(table, s, expr).0;
            &&& t.values.len() == s.values.len() + values_in(expr)
            &&& forall|name: Seq<char>| #[trigger]
                t.names.contains_key(name) && !s.names.contains_key(name) ==> is_named_by(
                    table,
                    t.names,
                    expr,
                    name,
                )
        }),
    decreases expr, 1nat,
{
    let t = written(table, s, expr).0;
    match expr {
        Expr::BinaryOp(op) => {
            assert(written(table, s, expr) == written_op(table, s, op));
            lemma_two_parts(table, s, primary, *op.lhs, *op.rhs, expr);
        },
        Expr::Reference(reference) => {
            let at = referred(reference)->0 as int;
            law_column_placeholder_stands_for_name(table, s, at);
            assert(refers_to(expr, at));
            assert forall|name: Seq<char>| #[trigger]
                t.names.contains_key(name) && !s.names.contains_key(name) implies is_named_by(
                table,
                t.names,
                expr,
                name,
            ) by {
                assert(t.names[name] == table.columns[at].name);
            }
        },
        Expr::Value(value) => {
            law_value_placeholder_is_fresh(table, s, attribute_of(value@));
            let name = with_value(s, attribute_of(value@)).1;
            assert(t.values.dom() =~= s.values.dom().insert(name));
        },
        Expr::And(operands) => {
            lemma_operands_other(table, s, primary, operands, operands@.len());
            assert forall|name: Seq<char>| #[trigger]
                t.names.contains_key(name) && !s.names.contains_key(name) implies is_named_by(
                table,
                t.names,
                expr,
                name,
            ) by {
                let k = choose|k: int|
                    0 <= k < operands@.len() && is_named_by(
                        table,
                        t.names,
                        #[trigger] operands@[k],
                        name,
                    );
                let i = choose|i: int|
                    0 <= i < table.columns.len() && refers_to(operands@[k], i) && t.names[name]
                        == (#[trigger] table.columns[i]).name;
                assert(refers_to(expr, i));
                assert(t.names[name] == table.columns[i].name);
            }
        },
        Expr::BeginsWith(begins_with) => {
            lemma_two_parts(table, s, primary, *begins_with.expr, *begins_with.pattern, expr);
        },
        _ => {},
    }
}

proof fn lemma_two_parts(
    table: TableView,
    s: AttrsView,
    primary: bool,
    lhs: Expr,
    rhs: Expr,
    whole: Expr,
)
    requires
        placeholders_good(table, s),
        columns_numbered(table),
        table.columns.len() <= usize::MAX,
        is_supported(table, primary, lhs),
        is_supported(table, primary, rhs),
        decreases_to!(whole => lhs),
        decreases_to!(whole => rhs),
        forall|i: int| refers_to(lhs, i) || refers_to(rhs, i) ==> #[trigger] refers_to(whole, i),
    ensures
        ({
            let u = written(table, s, lhs).0;
            let t = written(table, u, rhs).0;
            &&& t.values.len() == s.values.len() + values_in(lhs) + values_in(rhs)
            &&& forall|name: Seq<char>| #[trigger]
                t.names.contains_key(name) && !s.names.contains_key(name) ==> is_named_by(
                    table,
                    t.names,
                    whole,
                    name,
                )
        }),
    decreases whole, 0nat,
{
    let u = written(table, s, lhs).0;
    let t = written(table, u, rhs).0;
    law_expression_keeps_placeholders(table, s, primary, lhs);
    law_expression_keeps_placeholders(table, u, primary, rhs);
    law_no_other_placeholders(table, s, primary, lhs);
    law_no_other_placeholders(table, u, primary, rhs);
    lemma_still_named(table, u, t, lhs, whole);
    assert(keeps_meaning(t, t));
    lemma_still_named(table, t, t, rhs, whole);
}

proof fn lemma_operands_other(
    table: TableView,
    s: AttrsView,
    primary: bool,
    operands: Vec<Expr>,
    n: nat,
)
    requires
        placeholders_good(table, s),
        columns_numbered(table),
        table.columns.len() <= usize::MAX,
        n <= operands@.len(),
        forall|i: int|
            0 <= i < operands@.len() ==> is_supported(table, primary, #[trigger] operands@[i]),
    ensures
        ({
            let t = written_operands(table, s, operands, n).0;
            &&& t.values.len() == s.values.len() + values_in_first(operands, n)
            &&& forall|name: Seq<char>| #[trigger]
                t.names.contains_key(name) && !s.names.contains_key(name) ==> exists|k: int|
                    0 <= k < n && is_named_by(table, t.names, #[trigger] operands@[k], name)
        }),
    decreases operands, n,
{
    if n > 0 {
        let m = (n - 1) as nat;
        let u = written_operands(table, s, operands, m).0;
        let t = written_operands(table, s, operands, n).0;
        lemma_operands_other(table, s, primary, operands, m);
        lemma_operands_keep(table, s, primary, operands, m);
        assert(is_supported(table, primary, operands@[n - 1]));
        law_expression_keeps_placeholders(table, u, primary, operands@[n - 1]);
        law_no_other_placeholders(table, u, primary, operands@[n - 1]);
        assert forall|name: Seq<char>| #[trigger]
            t.names.contains_key(name) && !s.names.contains_key(name) implies exists|k: int|
            0 <= k < n && is_named_by(table, t.names, #[trigger] operands@[k], name) by {
            if u.names.contains_key(name) {
                let k = choose|k: int|
                    0 <= k < m && is_named_by(table, u.names, #[trigger] operands@[k], name);
                lemma_still_named(table, u, t, operands@[k], operands@[k]);
                assert(is_named_by(table, t.names, operands@[k], name));
            } else {
                assert(is_named_by(table, t.names, operands@[n - 1], name));
            }
        }
    }
}

/// A look-up sends no placeholder that its conditions do not use. There is one for each value
/// that is asked for, where a joined local key is asked for by one text in all. The name
/// placeholders stand for columns that the conditions refer to, or for the joined key.
pub proof fn law_look_up_sends_no_other_placeholders(
    table: TableView,
    pk_filter: Expr,
    filter: Option<Expr>,
)
    requires
        columns_numbered(table),
        table.columns.len() <= usize::MAX,
        can_query(table, pk_filter, filter),
    ensures
        ({
            let view = query(table, pk_filter, filter);
            let sk_cols = sort_columns(table);
            let on_pk = asked(table, pk_filter, partition_column(table).id);
            let key = if sk_cols.len() > 1 {
                Expr::BinaryOp(on_pk.last())
            } else {
                pk_filter
            };
            let more = match filter {
                Some(expr) => values_in(expr),
                None => 0,
            };
            &&& view.values.len() == values_in(key) + more + (if sk_cols.len() > 1 {
                1nat
            } else {
                0nat
            })
            &&& view.names.contains_key("#sk_col"@) <==> sk_cols.len() > 1
            &&& forall|name: Seq<char>| #[trigger]
                view.names.contains_key(name) && name != "#sk_col"@ ==> is_named_by(
                    table,
                    view.names,
                    key,
                    name,
                ) || (filter matches Some(expr) && is_named_by(table, view.names, expr, name))
        }),
{
    let view = query(table, pk_filter, filter);
    let pk = partition_column(table).id;
    let sk_cols = sort_columns(table);
    let start = AttrsView::empty();
    let (s, condition) = pk_condition(table, pk_filter);
    assert(placeholders_good(table, start));
    lemma_pk_condition(table, pk_filter, filter);
    let key = if sk_cols.len() > 1 {
        Expr::BinaryOp(asked(table, pk_filter, pk).last())
    } else {
        pk_filter
    };
    if sk_cols.len() > 1 {
        let c = gathered(table, pk, KeyConditions::empty(), pk_filter);
        lemma_gathered(table, pk, KeyConditions::empty(), pk_filter);
        assert(c.pk == Some(asked(table, pk_filter, pk).last()));
        assert(is_supported(table, true, key));
        law_no_other_placeholders(table, start, true, key);
        law_expression_keeps_placeholders(table, start, true, key);
        lemma_not_joined_name(table, start, true, key);
        assert(written(table, start, key) == written_op(table, start, c.pk->0));
        let t = written_op(table, start, c.pk->0).0;
        let value = AttributeView::S(terminated(wanted_texts(c.sk, sk_cols)));
        law_value_placeholder_is_fresh(table, t, value);
        let (u, name) = with_value(t, value);
        assert(u.values.dom() =~= t.values.dom().insert(name));
        assert(keeps_meaning(t, s));
        lemma_still_named(table, t, s, key, key);
        assert forall|name: Seq<char>| #[trigger]
            s.names.contains_key(name) && name != "#sk_col"@ implies is_named_by(
            table,
            s.names,
            key,
            name,
        ) by {
            assert(t.names.contains_key(name));
        }
    } else {
        law_no_other_placeholders(table, start, true, key);
        lemma_not_joined_name(table, start, true, key);
    }
    let last = AttrsView { columns: s.columns, names: view.names, values: view.values };
    lemma_still_named(table, s, last, key, key);
    match filter {
        Some(expr) => {
            law_no_other_placeholders(table, s, false, expr);
            let t = written(table, s, expr).0;
            assert(view.names == t.names && view.values == t.values);
            if sk_cols.len() <= 1 {
                lemma_not_joined_name(table, s, false, expr);
            } else {
                assert(s.names.contains_key("#sk_col"@));
                assert(last.names.contains_key("#sk_col"@));
            }
            assert forall|name: Seq<char>| #[trigger]
                view.names.contains_key(name) && name != "#sk_col"@ implies is_named_by(
                table,
                view.names,
                key,
                name,
            ) || is_named_by(table, view.names, expr, name) by {
                if s.names.contains_key(name) {
                    assert(is_named_by(table, s.names, key, name));
                } else {
                    assert(t.names.contains_key(name));
                }
            }
        },
        None => {},
    }
}

} // verus!

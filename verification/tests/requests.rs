use item_collection::attribute::{AttributeValue, ScalarAttributeType};
use item_collection::checked_plans::{
    check_column, check_create, check_insert, check_key_condition, check_keyed, check_local,
    check_query, check_supported, try_plan_create_table, try_plan_insert, try_plan_query_pk,
};
use item_collection::db::{
    Column, ColumnId, Index, IndexColumn, IndexId, IndexOp, IndexScope, PrimaryKey, Schema,
    StorageType, Table, TableId,
};
use item_collection::expression::{ddb_expression, ExprAttrs};
use item_collection::insert_plan::{plan_insert, Insert, InsertPlan};
use item_collection::key_expression::BuildKeyExpression;
use item_collection::keys::{ddb_key, ddb_key_schema, sort_key_columns, KeySchemaElement, KeyType};
use item_collection::query_plan::{plan_query_pk, QueryPk};
use item_collection::records::{item_to_record, try_item_to_record};
use item_collection::stmt::{
    BinaryOp, Expr, ExprBeginsWith, ExprBinaryOp, ExprColumn, ExprReference, Type, Value,
};
use item_collection::string_map::StringMap;
use item_collection::table_plan::{key_columns, plan_create_table, ProjectionType};

fn id(index: usize) -> ColumnId {
    ColumnId { table: TableId(0), index }
}

fn column(index: usize, name: &str, ty: Type) -> Column {
    Column {
        id: id(index),
        name: name.to_string(),
        ty,
        storage_ty: StorageType::Text,
        nullable: false,
        primary_key: false,
    }
}

fn part(index: usize, scope: IndexScope) -> IndexColumn {
    IndexColumn { column: id(index), op: IndexOp::Eq, scope }
}

fn index(at: usize, name: &str, columns: Vec<IndexColumn>, unique: bool, primary_key: bool) -> Index {
    Index {
        id: IndexId { table: TableId(0), index: at },
        name: name.to_string(),
        on: TableId(0),
        columns,
        unique,
        primary_key,
    }
}

/// A table with the key columns `pk`, `a` and `b` and the columns `n`, `email`,
/// of whose local key the first `local` columns are used.
fn table(local: usize, indices: Vec<Index>) -> Table {
    let mut key = vec![part(0, IndexScope::Partition)];
    for i in 0..local {
        key.push(part(i + 1, IndexScope::Local));
    }
    let mut all = vec![index(0, "by_key", key.clone(), true, true)];
    all.extend(indices);
    Table {
        id: TableId(0),
        name: "items".to_string(),
        columns: vec![
            column(0, "pk", Type::String),
            column(1, "a", Type::String),
            column(2, "b", Type::String),
            column(3, "n", Type::I64),
            column(4, "email", Type::String),
        ],
        primary_key: PrimaryKey {
            columns: key.iter().map(|c| c.column).collect(),
            index: IndexId { table: TableId(0), index: 0 },
        },
        indices: all,
    }
}

fn schema(local: usize, indices: Vec<Index>) -> Schema {
    Schema { tables: vec![table(local, indices)] }
}

fn text(s: &str) -> Value {
    Value::String(s.to_string())
}

fn s(text: &str) -> AttributeValue {
    AttributeValue::S(text.to_string())
}

fn n(text: &str) -> AttributeValue {
    AttributeValue::N(text.to_string())
}

fn item(entries: &[(&str, AttributeValue)]) -> StringMap<AttributeValue> {
    let mut map = StringMap::new();
    for (name, value) in entries {
        map.insert(name.to_string(), item_collection::attribute::copy_attribute(value));
    }
    map
}

fn entries(map: StringMap<AttributeValue>) -> Vec<(String, AttributeValue)> {
    let mut all = map.into_entries();
    all.sort_by(|a, b| a.0.cmp(&b.0));
    all
}

fn named(entries: &[(&str, AttributeValue)]) -> Vec<(String, AttributeValue)> {
    self::entries(item(entries))
}

fn reference(column: usize) -> Expr {
    Expr::Reference(ExprReference::Column(ExprColumn { nesting: 0, table: 0, column }))
}

fn compare(column: usize, op: BinaryOp, value: Value) -> Expr {
    Expr::BinaryOp(ExprBinaryOp {
        lhs: Box::new(reference(column)),
        op,
        rhs: Box::new(Expr::Value(value)),
    })
}

fn equals(column: usize, value: &str) -> Expr {
    compare(column, BinaryOp::Eq, text(value))
}

#[test]
fn a_single_local_column_keeps_its_name() {
    let t = table(1, vec![]);
    let key = ddb_key(&t, &Value::Record(vec![text("p"), Value::I64(5)]));
    assert_eq!(entries(key), named(&[("pk", s("p")), ("a", n("5"))]));
}

#[test]
fn several_local_columns_are_joined() {
    let t = table(2, vec![]);
    let key = ddb_key(&t, &Value::Record(vec![text("p"), text("x"), text("y")]));
    assert_eq!(entries(key), named(&[("pk", s("p")), ("__sk", s("x#y#"))]));
    let partial = ddb_key(&t, &Value::Record(vec![text("p"), text("x"), Value::Null]));
    assert_eq!(entries(partial), named(&[("pk", s("p")), ("__sk", s("x#"))]));
}

#[test]
fn a_key_of_one_column_is_no_record() {
    let t = table(0, vec![]);
    assert_eq!(entries(ddb_key(&t, &text("p"))), named(&[("pk", s("p"))]));
}

#[test]
fn key_schemas_name_partition_and_range() {
    let pk = "pk".to_string();
    let range = "__sk".to_string();
    let hash = KeySchemaElement { attribute_name: pk.clone(), key_type: KeyType::Hash };
    assert_eq!(ddb_key_schema(&pk, None), vec![hash]);
    let both = ddb_key_schema(&pk, Some(&range));
    assert_eq!(both.len(), 2);
    assert_eq!(both[1].attribute_name, "__sk");
    assert_eq!(both[1].key_type, KeyType::Range);
}

#[test]
fn key_columns_are_told_by_scope() {
    let t = table(2, vec![]);
    assert_eq!(sort_key_columns(&t), vec![id(1), id(2)]);
    assert_eq!(key_columns(&t, IndexScope::Partition), vec![id(0)]);
    assert_eq!(key_columns(&t, IndexScope::Local), vec![id(1), id(2)]);
}

#[test]
fn records_come_from_attributes_and_joined_keys() {
    let t = table(2, vec![]);
    let stored = item(&[("pk", s("p")), ("__sk", s("x#")), ("n", n("-3"))]);
    let columns: Vec<&Column> = t.columns.iter().collect();
    let sk = sort_key_columns(&t);
    let expected = vec![text("p"), text("x"), Value::Null, Value::I64(-3), Value::Null];
    assert_eq!(item_to_record(&stored, &columns, &sk), expected);
    assert_eq!(try_item_to_record(&stored, &columns, &sk), Some(expected));
}

#[test]
fn attributes_come_before_joined_keys() {
    let t = table(2, vec![]);
    let stored = item(&[("a", s("own")), ("__sk", s("x#y#"))]);
    let columns: Vec<&Column> = t.columns.iter().collect();
    let record = item_to_record(&stored, &columns, &sort_key_columns(&t));
    assert_eq!(record[1], text("own"));
    assert_eq!(record[2], text("y"));
}

#[test]
fn items_that_do_not_fit_are_not_read() {
    let t = table(2, vec![]);
    let columns: Vec<&Column> = t.columns.iter().collect();
    let sk = sort_key_columns(&t);
    let too_many = item(&[("__sk", s("x#y#z#"))]);
    assert_eq!(try_item_to_record(&too_many, &columns, &sk), None);
    let no_text = item(&[("__sk", n("1"))]);
    assert_eq!(try_item_to_record(&no_text, &columns, &sk), None);
    let wrong_type = item(&[("n", s("three"))]);
    assert_eq!(try_item_to_record(&wrong_type, &columns, &sk), None);
}

#[test]
fn a_gap_in_a_joined_key_closes() {
    let schema = schema(2, vec![]);
    let insert = Insert {
        table: TableId(0),
        columns: vec![id(0), id(1), id(2)],
        rows: vec![vec![text("p"), Value::Null, text("y")]],
    };
    match plan_insert(&schema, &insert) {
        (InsertPlan::PutItem(_, item), 1) => {
            assert_eq!(entries(item), named(&[("pk", s("p")), ("__sk", s("y#"))]))
        }
        other => panic!("{other:?}"),
    }
}

#[test]
fn expressions_are_written_with_placeholders() {
    let t = table(0, vec![]);
    let mut attrs = ExprAttrs::new();
    let expr = Expr::And(vec![
        compare(3, BinaryOp::Ge, Value::I64(1)),
        compare(3, BinaryOp::Lt, Value::I64(9)),
        compare(4, BinaryOp::Ne, text("x")),
        Expr::BeginsWith(ExprBeginsWith {
            expr: Box::new(reference(1)),
            pattern: Box::new(Expr::Value(text("ab"))),
        }),
    ]);
    assert_eq!(
        ddb_expression(&t, &mut attrs, false, &expr),
        "#col_3 >= :v_0 AND #col_3 < :v_1 AND #col_4 <> :v_2 AND begins_with(#col_1, :v_3)"
    );
    assert_eq!(attrs.attr_names.get("#col_3"), Some(&"n".to_string()));
    assert_eq!(attrs.attr_names.get("#col_4"), Some(&"email".to_string()));
    assert_eq!(attrs.attr_names.len(), 3);
    assert_eq!(attrs.attr_values.get(":v_1"), Some(&n("9")));
    assert_eq!(attrs.attr_values.get(":v_3"), Some(&s("ab")));
    assert_eq!(attrs.columns.len(), 3);
    for (op, written) in [
        (BinaryOp::Eq, "#col_3 = :v_4"),
        (BinaryOp::Gt, "#col_3 > :v_5"),
        (BinaryOp::Le, "#col_3 <= :v_6"),
    ] {
        let expr = compare(3, op, Value::I64(0));
        assert_eq!(ddb_expression(&t, &mut attrs, true, &expr), written);
    }
}

#[test]
fn placeholders_are_never_reused() {
    let mut attrs = ExprAttrs::new();
    assert_eq!(attrs.literal("x".to_string()), ":v_0");
    assert_eq!(attrs.value(&Value::I64(2)), ":v_1");
    assert_eq!(attrs.ddb_value(s("z")), ":v_2");
    assert_eq!(attrs.attr_values.get(":v_0"), Some(&s("x")));
    assert_eq!(attrs.attr_values.get(":v_1"), Some(&n("2")));
    assert_eq!(attrs.attr_values.get(":v_2"), Some(&s("z")));
    let t = table(0, vec![]);
    assert_eq!(attrs.column(&t.columns[4]), "#col_4");
    assert_eq!(attrs.column(&t.columns[4]), "#col_4");
    assert_eq!(attrs.attr_names.get("#col_4"), Some(&"email".to_string()));
}

#[test]
fn some_expressions_cannot_be_written() {
    let t = table(0, vec![]);
    let ne = compare(0, BinaryOp::Ne, text("x"));
    assert!(!check_supported(&t, true, &ne));
    assert!(check_supported(&t, false, &ne));
    assert!(!check_supported(&t, false, &reference(5)));
    assert!(!check_supported(&t, false, &Expr::null()));
    assert!(!check_supported(&t, false, &Expr::IsNull(Box::new(reference(0)))));
    assert!(!check_supported(&t, false, &Expr::Record(vec![])));
    assert!(check_key_condition(&t, &Expr::IsNull(Box::new(reference(0)))));
    assert!(!check_key_condition(&t, &ne));
}

fn query(pk_filter: Expr, filter: Option<Expr>) -> QueryPk {
    QueryPk { table: TableId(0), pk_filter, filter, select: vec![id(0), id(3)] }
}

#[test]
fn queries_on_a_single_local_column_are_unchanged() {
    let schema = schema(1, vec![]);
    let op = query(
        Expr::And(vec![equals(0, "p"), compare(1, BinaryOp::Gt, text("k"))]),
        Some(compare(3, BinaryOp::Lt, Value::I64(4))),
    );
    let plan = plan_query_pk(&schema, &op);
    assert_eq!(plan.table_name, "items");
    assert_eq!(plan.key_condition_expression, "#col_0 = :v_0 AND #col_1 > :v_1");
    assert_eq!(plan.filter_expression, Some("#col_3 < :v_2".to_string()));
    assert_eq!(plan.expression_attribute_names.len(), 3);
    assert_eq!(plan.expression_attribute_values.get(":v_2"), Some(&n("4")));
}

#[test]
fn queries_on_a_joined_key_ask_for_its_beginning() {
    let schema = schema(2, vec![]);
    let prefix_of = |pk_filter: Expr| {
        let plan = try_plan_query_pk(&schema, &query(pk_filter, None)).unwrap();
        assert_eq!(
            plan.key_condition_expression,
            "#col_0 = :v_0 AND begins_with(#sk_col, :v_1)"
        );
        match plan.expression_attribute_values.get(":v_1") {
            Some(AttributeValue::S(s)) => s.clone(),
            other => panic!("{other:?}"),
        }
    };
    assert_eq!(prefix_of(equals(0, "p")), "");
    assert_eq!(prefix_of(Expr::And(vec![equals(1, "x"), equals(0, "p")])), "x#");
    assert_eq!(
        prefix_of(Expr::And(vec![equals(0, "p"), equals(1, "x"), equals(2, "y")])),
        "x#y#"
    );
    // the last condition on a column counts
    assert_eq!(
        prefix_of(Expr::And(vec![equals(0, "p"), equals(1, "x"), equals(1, "z")])),
        "z#"
    );
    // a column that does not apply to the model adds nothing
    assert_eq!(
        prefix_of(Expr::And(vec![
            equals(0, "p"),
            equals(1, "x"),
            Expr::IsNull(Box::new(reference(2))),
        ])),
        "x#"
    );
}

#[test]
fn some_key_conditions_cannot_be_asked_for() {
    let schema = schema(2, vec![]);
    let t = &schema.tables[0];
    let refused = |pk_filter: Expr| {
        let op = query(pk_filter, None);
        assert!(!check_query(t, &op));
        try_plan_query_pk(&schema, &op).is_none()
    };
    // no condition on the partition
    assert!(refused(equals(1, "x")));
    // a gap
    assert!(refused(Expr::And(vec![equals(0, "p"), equals(2, "y")])));
    // no equation
    assert!(refused(Expr::And(vec![equals(0, "p"), compare(1, BinaryOp::Gt, text("x"))])));
    // no text
    assert!(refused(Expr::And(vec![
        equals(0, "p"),
        compare(1, BinaryOp::Eq, Value::I64(1)),
    ])));
    let op = QueryPk { table: TableId(3), ..query(equals(0, "p"), None) };
    assert!(try_plan_query_pk(&schema, &op).is_none());
}

#[test]
fn conditions_are_collected_by_column() {
    let t = table(2, vec![]);
    let sk = sort_key_columns(&t);
    let expr = Expr::And(vec![equals(0, "p"), equals(2, "y")]);
    let mut attrs = ExprAttrs::new();
    let mut build = BuildKeyExpression {
        table: &t,
        attrs: &mut attrs,
        expr: &expr,
        pk_column: &t.columns[0],
        sk_columns: &sk,
        concat_sk: true,
        sk_components: vec![],
        pk_component: None,
    };
    build.visit_expr(&expr);
    assert!(build.pk_component.is_some());
    assert_eq!(build.sk_components.len(), 1);
    assert_eq!(build.sk_components[0].0, id(2));
}

#[test]
fn tables_are_created_with_their_indices() {
    let secondary = index(1, "by_n", vec![part(3, IndexScope::Partition)], false, false);
    let unique = index(2, "by_email", vec![part(4, IndexScope::Partition)], true, false);
    let schema = schema(2, vec![secondary, unique]);
    let plan = plan_create_table(&schema, &schema.tables[0], true);
    assert_eq!(plan.delete, vec!["items".to_string(), "by_email".to_string()]);
    assert_eq!(plan.create.len(), 2);

    let main = &plan.create[0];
    assert_eq!(main.table_name, "items");
    let mut types: Vec<(&str, ScalarAttributeType)> = main
        .attribute_definitions
        .iter()
        .map(|d| (d.attribute_name.as_str(), d.attribute_type))
        .collect();
    types.sort_by_key(|t| t.0);
    assert_eq!(
        types,
        vec![
            ("__sk", ScalarAttributeType::S),
            ("n", ScalarAttributeType::N),
            ("pk", ScalarAttributeType::S),
        ]
    );
    assert_eq!(main.key_schema, ddb_key_schema(&"pk".to_string(), Some(&"__sk".to_string())));
    assert_eq!(main.provisioned_throughput.read_capacity_units, 10);
    assert_eq!(main.provisioned_throughput.write_capacity_units, 5);
    let gsis = main.global_secondary_indexes.as_ref().unwrap();
    assert_eq!(gsis.len(), 1);
    assert_eq!(gsis[0].index_name, "by_n");
    assert_eq!(gsis[0].key_schema, ddb_key_schema(&"n".to_string(), None));
    assert_eq!(gsis[0].projection, ProjectionType::All);
    assert_eq!(gsis[0].provisioned_throughput, main.provisioned_throughput);

    let by_email = &plan.create[1];
    assert_eq!(by_email.table_name, "by_email");
    assert_eq!(by_email.key_schema, ddb_key_schema(&"email".to_string(), None));
    assert_eq!(by_email.attribute_definitions.len(), 1);
    assert!(by_email.global_secondary_indexes.is_none());
}

#[test]
fn a_single_local_column_is_the_range_key() {
    let schema = schema(1, vec![]);
    let plan = try_plan_create_table(&schema, &schema.tables[0], false).unwrap();
    assert!(plan.delete.is_empty());
    let main = &plan.create[0];
    assert_eq!(main.key_schema, ddb_key_schema(&"pk".to_string(), Some(&"a".to_string())));
    assert!(main.global_secondary_indexes.is_none());
}

#[test]
fn some_tables_cannot_be_created() {
    // two columns pick the partition
    let mut two = schema(1, vec![]);
    two.tables[0].indices[0].columns[1].scope = IndexScope::Partition;
    assert!(!check_create(&two, &two.tables[0]));
    // an index over two columns
    let wide = index(
        1,
        "wide",
        vec![part(3, IndexScope::Partition), part(4, IndexScope::Local)],
        false,
        false,
    );
    let wide = schema(1, vec![wide]);
    assert!(try_plan_create_table(&wide, &wide.tables[0], false).is_none());
    // a key of a type that no key can have
    let mut odd = schema(0, vec![]);
    odd.tables[0].columns[0].ty = Type::Bytes;
    assert!(!check_create(&odd, &odd.tables[0]));
    // no index over the primary key
    let mut none = schema(0, vec![]);
    none.tables[0].indices.clear();
    assert!(!check_keyed(&none.tables[0]));
    assert!(!check_create(&none, &none.tables[0]));
    assert!(check_column(&none, id(4)));
    assert!(!check_column(&none, id(5)));
}

fn rows(columns: &[usize], rows: Vec<Vec<Value>>) -> Insert {
    Insert { table: TableId(0), columns: columns.iter().map(|i| id(*i)).collect(), rows }
}

#[test]
fn several_rows_are_inserted_in_a_batch() {
    let schema = schema(1, vec![]);
    let insert = rows(
        &[0, 1, 3],
        vec![
            vec![text("p"), text("x"), Value::I64(1)],
            vec![text("p"), text("y"), Value::Null],
        ],
    );
    match plan_insert(&schema, &insert) {
        (InsertPlan::BatchWriteItem(table, items), 2) => {
            assert_eq!(table, "items");
            let items: Vec<_> = items.into_iter().map(entries).collect();
            assert_eq!(
                items,
                vec![
                    named(&[("pk", s("p")), ("a", s("x")), ("n", n("1"))]),
                    named(&[("pk", s("p")), ("a", s("y"))]),
                ]
            );
        }
        other => panic!("{other:?}"),
    }
    match plan_insert(&schema, &rows(&[0, 1], vec![])) {
        (InsertPlan::BatchWriteItem(_, items), 0) => assert!(items.is_empty()),
        other => panic!("{other:?}"),
    }
}

fn unique_email() -> Schema {
    let unique = index(1, "by_email", vec![part(4, IndexScope::Partition)], true, false);
    schema(1, vec![unique])
}

#[test]
fn unique_values_are_inserted_in_a_transaction() {
    let schema = unique_email();
    let insert = rows(
        &[0, 1, 4],
        vec![
            vec![text("p"), text("x"), text("x@example.com")],
            vec![text("q"), text("y"), Value::Null],
        ],
    );
    let (plan, count) = try_plan_insert(&schema, &insert).unwrap();
    assert_eq!(count, 2);
    let mut puts = match plan {
        InsertPlan::TransactWriteItems(puts) => puts.into_iter(),
        other => panic!("{other:?}"),
    };
    let entry = puts.next().unwrap();
    assert_eq!(entry.table_name, "by_email");
    assert_eq!(
        entries(entry.item),
        named(&[("email", s("x@example.com")), ("pk", s("p")), ("a", s("x"))])
    );
    let condition = entry.condition.unwrap();
    assert_eq!(condition.expression, "attribute_not_exists(#4)");
    assert_eq!(condition.names.into_entries(), vec![("#4".to_string(), "email".to_string())]);
    let first = puts.next().unwrap();
    assert_eq!(first.table_name, "items");
    assert!(first.condition.is_none());
    assert_eq!(
        entries(first.item),
        named(&[("pk", s("p")), ("a", s("x")), ("email", s("x@example.com"))])
    );
    // a row without the value goes into the table alone
    let second = puts.next().unwrap();
    assert_eq!(second.table_name, "items");
    assert_eq!(entries(second.item), named(&[("pk", s("q")), ("a", s("y"))]));
    assert!(puts.next().is_none());
}

#[test]
fn an_index_without_values_is_not_updated() {
    let schema = unique_email();
    let insert = rows(&[0, 1], vec![vec![text("p"), text("x")]]);
    assert!(matches!(plan_insert(&schema, &insert), (InsertPlan::PutItem(_, _), 1)));
}

#[test]
fn some_rows_cannot_be_inserted() {
    // two unique indices
    let email = index(1, "by_email", vec![part(4, IndexScope::Partition)], true, false);
    let number = index(2, "by_n", vec![part(3, IndexScope::Partition)], true, false);
    let two = schema(1, vec![email, number]);
    let row = vec![text("p"), text("x"), Value::I64(1), text("e")];
    assert!(!check_insert(&two, &rows(&[0, 1, 3, 4], vec![row])));
    // a joined key without all its values
    let joined = schema(2, vec![]);
    assert!(try_plan_insert(&joined, &rows(&[0, 1], vec![vec![text("p"), text("x")]])).is_none());
    // a unique index beside a joined key, whose columns are no attributes
    let email = index(1, "by_email", vec![part(4, IndexScope::Partition)], true, false);
    let both = schema(2, vec![email]);
    let row = vec![text("p"), text("x"), text("y"), text("e")];
    assert!(!check_insert(&both, &rows(&[0, 1, 2, 4], vec![row])));
    // a row that is too short, and a value that cannot be stored
    let plain = schema(1, vec![]);
    assert!(!check_insert(&plain, &rows(&[0, 1], vec![vec![text("p")]])));
    let record = vec![text("p"), Value::Record(vec![])];
    assert!(!check_insert(&plain, &rows(&[0, 1], vec![record])));
    // an unknown column, and an unknown table
    let unknown = vec![text("p"), text("x")];
    assert!(!check_insert(&plain, &rows(&[0, 9], vec![unknown])));
    let elsewhere = Insert { table: TableId(1), columns: vec![], rows: vec![] };
    assert!(try_plan_insert(&plain, &elsewhere).is_none());
}

#[test]
fn what_is_not_looked_at_need_not_be_there() {
    let row = || vec![text("p"), text("x")];
    // the partition's column, as far as the index over the primary key goes
    let mut partition = schema(1, vec![]);
    partition.tables[0].indices[0].columns[0].column = id(9);
    assert!(!check_keyed(&partition.tables[0]));
    assert!(check_local(&partition.tables[0]));
    let insert = rows(&[0, 1], vec![row()]);
    let (plan, _) = try_plan_insert(&partition, &insert).unwrap();
    assert!(matches!(plan, InsertPlan::PutItem(_, _)));
    // a column of the local key is
    let mut local = schema(1, vec![]);
    local.tables[0].indices[0].columns[1].column = id(9);
    assert!(!check_local(&local.tables[0]));
    assert!(try_plan_insert(&local, &insert).is_none());
    // a column of an index that is not unique
    let secondary = index(1, "by_n", vec![part(9, IndexScope::Partition)], false, false);
    assert!(check_insert(&schema(1, vec![secondary]), &insert));
    // a column of a unique index behind one that the rows have no value for
    let behind = vec![part(4, IndexScope::Partition), part(9, IndexScope::Local)];
    let behind = schema(1, vec![index(1, "by_both", behind, true, false)]);
    assert!(check_insert(&behind, &insert));
    // one before it is
    let before = vec![part(9, IndexScope::Partition), part(4, IndexScope::Local)];
    let before = schema(1, vec![index(1, "by_both", before, true, false)]);
    assert!(!check_insert(&before, &insert));
    // columns without rows
    assert!(check_insert(&schema(1, vec![]), &rows(&[0, 9], vec![])));
    // columns of the primary key, where no entry of a unique index needs them
    let mut key = unique_email();
    key.tables[0].primary_key.columns.push(id(9));
    let without = vec![text("p"), text("x"), Value::Null];
    assert!(check_insert(&key, &rows(&[0, 1, 4], vec![without])));
    let with = vec![text("p"), text("x"), text("e")];
    assert!(!check_insert(&key, &rows(&[0, 1, 4], vec![with])));
    // columns of a local key that is joined, when the table is created
    let mut joined = schema(2, vec![]);
    joined.tables[0].indices[0].columns[2].column = id(9);
    assert!(try_plan_create_table(&joined, &joined.tables[0], false).is_some());
    assert!(!check_create(&local, &local.tables[0]));
    // a type that a later attribute of the same name replaces
    let by_b = index(1, "by_b", vec![part(2, IndexScope::Partition)], false, false);
    let mut replaced = schema(1, vec![by_b]);
    replaced.tables[0].columns[1].ty = Type::Bytes;
    assert!(!check_create(&replaced, &replaced.tables[0]));
    replaced.tables[0].columns[2].name = "a".to_string();
    assert!(check_create(&replaced, &replaced.tables[0]));
}

#[test]
fn columns_without_a_value_are_read_as_null() {
    let mut schema = schema(2, vec![]);
    schema.tables[0].columns[3].ty = Type::Uuid;
    let t = &schema.tables[0];
    let row = || vec![text("p"), text("x"), Value::Null, Value::Uuid(77)];
    let stored = match plan_insert(&schema, &rows(&[0, 1, 2, 3], vec![row()])) {
        (InsertPlan::PutItem(_, item), 1) => item,
        other => panic!("{other:?}"),
    };
    let columns: Vec<&Column> = t.columns.iter().collect();
    let mut expected = row();
    expected.push(Value::Null);
    let sk = sort_key_columns(t);
    assert_eq!(try_item_to_record(&stored, &columns, &sk), Some(expected));
    let backwards: Vec<&Column> = t.columns.iter().rev().collect();
    let mut reversed = row();
    reversed.push(Value::Null);
    reversed.reverse();
    assert_eq!(item_to_record(&stored, &backwards, &sk), reversed);
}

#[test]
fn inserted_rows_are_found_and_read_back() {
    let schema = schema(2, vec![]);
    let t = &schema.tables[0];
    let row = || vec![text("p"), text("x"), text("y"), Value::I64(7), Value::Null];
    let insert = rows(&[0, 1, 2, 3, 4], vec![row()]);
    let stored = match plan_insert(&schema, &insert) {
        (InsertPlan::PutItem(_, item), 1) => item,
        other => panic!("{other:?}"),
    };
    let key = ddb_key(t, &Value::Record(vec![text("p"), text("x"), text("y")]));
    assert_eq!(key.len(), 2);
    for (name, value) in key.into_entries() {
        assert_eq!(stored.get(&name), Some(&value));
    }
    let columns: Vec<&Column> = t.columns.iter().collect();
    assert_eq!(item_to_record(&stored, &columns, &sort_key_columns(t)), row());
}

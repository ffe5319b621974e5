use indexmap::IndexMap;
use item_collection::app::{
    self, BelongsTo, ColumnStorage, Field, FieldId, FieldPrimitive, FieldTy, ForeignKeyField,
    IndexField, Model, ModelId, Name,
};
use item_collection::attribute::AttributeValue;
use item_collection::build_schema::{BuildSchema, Builder};
use item_collection::build_table::Capability;
use item_collection::checked_plans::{
    try_plan_create_table, try_plan_insert, try_plan_query_pk,
};
use item_collection::collection_links::CollectionError;
use item_collection::db::{
    self, ColumnId, IndexColumn, IndexId, IndexOp, IndexScope, StorageType, TableId,
};
use item_collection::insert_plan::{Insert, InsertPlan};
use item_collection::keys::{ddb_key, sort_key_columns};
use item_collection::mapping::{self, FieldMapping, ItemCollection, Mapping};
use item_collection::query_plan::{read_item, QueryPk};
use item_collection::stmt::{
    BinaryOp, Expr, ExprBinaryOp, ExprColumn, ExprReference, Type, Value,
};
use item_collection::string_map::StringMap;

const USER: ModelId = ModelId(0);
const TODO_MODEL: ModelId = ModelId(1);

fn field_id(model: ModelId, index: usize) -> FieldId {
    FieldId { model, index }
}

fn column_id(index: usize) -> ColumnId {
    ColumnId { table: TableId(0), index }
}

fn name(snake: &str, camel: &str, plural: &str) -> Name {
    Name {
        snake_case: snake.to_string(),
        camel_case: camel.to_string(),
        plural: plural.to_string(),
    }
}

fn primitive(ty: Type) -> FieldTy {
    let storage = ColumnStorage { storage_ty: StorageType::Text, ty: Type::String };
    FieldTy::Primitive(FieldPrimitive { ty, storage: Some(storage) })
}

fn field(id: FieldId, name: &str, ty: FieldTy, primary_key: bool) -> Field {
    Field { id, name: name.to_string(), ty, nullable: false, primary_key }
}

fn index_field(field: FieldId, scope: IndexScope) -> IndexField {
    IndexField { field, op: IndexOp::Eq, scope }
}

fn key(fields: Vec<IndexField>) -> app::Index {
    app::Index { fields, unique: true, primary_key: true }
}

fn user() -> Model {
    Model {
        id: USER,
        name: name("user", "User", "users"),
        fields: vec![
            field(field_id(USER, 0), "id", primitive(Type::Id(USER)), true),
            field(field_id(USER, 1), "todos", FieldTy::HasMany(TODO_MODEL), false),
        ],
        indices: vec![key(vec![index_field(field_id(USER, 0), IndexScope::Partition)])],
        table_name: None,
        item_collection: None,
    }
}

/// A to-do item whose primary key is made of the given fields.
fn todo_item(keys: &[usize]) -> Model {
    let m = TODO_MODEL;
    let foreign_key = ForeignKeyField { source: field_id(m, 1), target: field_id(USER, 0) };
    let mut key_fields = Vec::new();
    for k in [1, 0] {
        if keys.contains(&k) {
            let scope = if k == 1 { IndexScope::Partition } else { IndexScope::Local };
            key_fields.push(index_field(field_id(m, k), scope));
        }
    }
    Model {
        id: m,
        name: name("todo", "Todo", "todos"),
        fields: vec![
            field(field_id(m, 0), "id", primitive(Type::Id(m)), keys.contains(&0)),
            field(field_id(m, 1), "user_id", primitive(Type::Id(USER)), keys.contains(&1)),
            field(
                field_id(m, 2),
                "user",
                FieldTy::BelongsTo(BelongsTo { foreign_key: vec![foreign_key] }),
                false,
            ),
            field(field_id(m, 3), "title", primitive(Type::String), false),
        ],
        indices: vec![
            key(key_fields),
            app::Index {
                fields: vec![index_field(field_id(m, 1), IndexScope::Partition)],
                unique: false,
                primary_key: false,
            },
        ],
        table_name: None,
        item_collection: Some(USER),
    }
}

fn empty_mapping(model: &Model, table: TableId) -> mapping::Model {
    let fields = model
        .fields
        .iter()
        .map(|f| match f.ty {
            FieldTy::Primitive(_) => {
                Some(FieldMapping { column: ColumnId::placeholder(), lowering: 0 })
            }
            _ => None,
        })
        .collect();
    mapping::Model {
        id: model.id,
        table,
        columns: vec![],
        fields,
        model_to_table: vec![],
        model_pk_to_table: Expr::null(),
        table_to_model: vec![],
        item_collection: ItemCollection {
            path: vec![],
            field_mapping: IndexMap::new(),
            model_column: None,
        },
    }
}

fn build<'a>(
    builder: &'a Builder,
    app: &app::Schema,
) -> Result<BuildSchema<'a>, CollectionError> {
    let mut schema = BuildSchema {
        builder,
        tables: vec![],
        table_lookup: StringMap::new(),
        mapping: Mapping { models: vec![] },
    };
    for model in &app.models {
        let table = schema.build_table_stub_for_model(model);
        schema.mapping.models.push(empty_mapping(model, table));
    }
    for model in &app.models {
        schema.populate_item_collection_mapping(app, model)?;
    }
    schema.build_tables_from_models(app, &Capability { varchar_ty: Type::String });
    Ok(schema)
}

fn no_prefix() -> Builder {
    Builder { table_name_prefix: None }
}

fn users_and_todos() -> app::Schema {
    app::Schema { models: vec![user(), todo_item(&[0, 1])] }
}

fn cast_field(field: FieldId) -> Expr {
    Expr::cast(Expr::ref_self_field(field), Type::String)
}

fn text(s: &str) -> Value {
    Value::String(s.to_string())
}

#[test]
fn validates_pk_missing_parent() {
    let app = app::Schema { models: vec![user(), todo_item(&[0])] };
    let builder = no_prefix();
    assert_eq!(
        build(&builder, &app).err(),
        Some(CollectionError::MissingParent(TODO_MODEL))
    );
}

#[test]
fn validates_pk_missing_primitive() {
    let app = app::Schema { models: vec![user(), todo_item(&[1])] };
    let builder = no_prefix();
    assert_eq!(
        build(&builder, &app).err(),
        Some(CollectionError::MissingPrimitive(TODO_MODEL))
    );
}

#[test]
fn a_refused_child_changes_nothing() {
    let app = app::Schema { models: vec![user(), todo_item(&[0])] };
    let builder = no_prefix();
    let mut schema = BuildSchema {
        builder: &builder,
        tables: vec![],
        table_lookup: StringMap::new(),
        mapping: Mapping { models: vec![] },
    };
    for model in &app.models {
        let table = schema.build_table_stub_for_model(model);
        schema.mapping.models.push(empty_mapping(model, table));
    }
    assert!(schema.populate_item_collection_mapping(&app, &app.models[1]).is_err());
    let todo = schema.mapping.model(TODO_MODEL);
    assert_eq!(todo.table, TableId::placeholder());
    assert!(todo.item_collection.path.is_empty());
    assert!(todo.item_collection.field_mapping.is_empty());
}

#[test]
fn a_collection_shares_one_table() {
    let builder = no_prefix();
    let schema = build(&builder, &users_and_todos()).unwrap();
    assert_eq!(schema.tables.len(), 1);
    let table = &schema.tables[0];
    assert_eq!(table.name, "users");
    assert_eq!(schema.mapping.model(USER).table, TableId(0));
    assert_eq!(schema.mapping.model(TODO_MODEL).table, TableId(0));

    let columns: Vec<(&str, bool, bool)> = table
        .columns
        .iter()
        .map(|c| (c.name.as_str(), c.nullable, c.primary_key))
        .collect();
    assert_eq!(
        columns,
        vec![
            ("user__id", false, false),
            ("__model", false, true),
            ("todo__id", true, false),
            ("todo__title", true, false),
        ]
    );
    for (i, column) in table.columns.iter().enumerate() {
        assert_eq!(column.id, column_id(i));
        assert_eq!(column.ty, Type::String);
    }
    assert_eq!(table.columns[1].storage_ty, StorageType::VarChar(4));
}

#[test]
fn children_extend_the_local_key() {
    let builder = no_prefix();
    let schema = build(&builder, &users_and_todos()).unwrap();
    let table = &schema.tables[0];
    let part = |column: usize, scope| IndexColumn {
        column: column_id(column),
        op: IndexOp::Eq,
        scope,
    };
    assert_eq!(
        table.indices[0].columns,
        vec![
            part(0, IndexScope::Partition),
            part(1, IndexScope::Local),
            part(2, IndexScope::Local),
        ]
    );
    assert_eq!(table.primary_key.columns, vec![column_id(0), column_id(1), column_id(2)]);
    assert_eq!(table.primary_key.index, IndexId { table: TableId(0), index: 0 });
    assert!(table.indices[0].primary_key);
    assert_eq!(table.indices[0].name, "index_users_by_user__id_and___model_and_todo__id");
    assert_eq!(table.indices[1].columns, vec![part(0, IndexScope::Partition)]);
    assert_eq!(table.indices[1].name, "index_users_by_user__id");
    assert_eq!(table.indices[1].id, IndexId { table: TableId(0), index: 1 });
    assert_eq!(table.indices.len(), 2);
}

#[test]
fn paths_end_with_their_model() {
    let builder = no_prefix();
    let schema = build(&builder, &users_and_todos()).unwrap();
    let root = &schema.mapping.model(USER).item_collection;
    let child = &schema.mapping.model(TODO_MODEL).item_collection;
    assert_eq!(root.path, vec![USER]);
    assert_eq!(child.path, vec![USER, TODO_MODEL]);
    assert_eq!(root.model_column, Some(column_id(1)));
    assert_eq!(child.model_column, Some(column_id(1)));
    assert_eq!(child.parent_field(field_id(TODO_MODEL, 1)), Some(field_id(USER, 0)));
    assert!(!child.is_linked(field_id(TODO_MODEL, 0)));
}

#[test]
fn models_map_to_shared_columns() {
    let builder = no_prefix();
    let schema = build(&builder, &users_and_todos()).unwrap();

    let root = schema.mapping.model(USER);
    assert_eq!(root.columns, vec![column_id(0), column_id(2), column_id(1)]);
    assert_eq!(
        root.model_to_table,
        vec![cast_field(field_id(USER, 0)), Expr::null(), Expr::Value(text("User"))]
    );
    let column = |column: usize| Expr::column(ExprColumn { nesting: 0, table: 0, column });
    assert_eq!(
        root.table_to_model,
        vec![Expr::cast(column(0), Type::Id(USER)), Expr::null()]
    );

    let child = schema.mapping.model(TODO_MODEL);
    assert_eq!(
        child.columns,
        vec![column_id(2), column_id(0), column_id(3), column_id(1)]
    );
    assert_eq!(
        child.model_to_table,
        vec![
            cast_field(field_id(TODO_MODEL, 0)),
            cast_field(field_id(TODO_MODEL, 1)),
            Expr::ref_self_field(field_id(TODO_MODEL, 3)),
            Expr::Value(text("Todo")),
        ]
    );
    assert_eq!(
        child.table_to_model,
        vec![
            Expr::cast(column(2), Type::Id(TODO_MODEL)),
            Expr::cast(column(0), Type::Id(USER)),
            Expr::null(),
            column(3),
        ]
    );
    let stored: Vec<Option<(usize, usize)>> = child
        .fields
        .iter()
        .map(|f| f.map(|f| (f.column.index, f.lowering)))
        .collect();
    assert_eq!(stored, vec![Some((2, 0)), Some((0, 1)), None, Some((3, 2))]);
}

#[test]
fn every_column_has_an_expression() {
    let builder = no_prefix();
    let schema = build(&builder, &users_and_todos()).unwrap();
    for model in [USER, TODO_MODEL] {
        let mapping = schema.mapping.model(model);
        assert_eq!(mapping.columns.len(), mapping.model_to_table.len());
        for field in mapping.fields.iter().flatten() {
            assert_eq!(mapping.columns[field.lowering], field.column);
        }
    }
}

#[test]
fn links_keep_their_order() {
    let mut collection = ItemCollection {
        path: vec![],
        field_mapping: IndexMap::new(),
        model_column: None,
    };
    collection.link(field_id(TODO_MODEL, 4), field_id(USER, 0));
    collection.link(field_id(TODO_MODEL, 1), field_id(USER, 2));
    collection.link(field_id(TODO_MODEL, 4), field_id(USER, 3));
    let links: Vec<((usize, usize), (usize, usize))> =
        collection.field_mapping.iter().map(|(k, v)| (*k, *v)).collect();
    assert_eq!(links, vec![((1, 4), (0, 3)), ((1, 1), (0, 2))]);
    assert_eq!(collection.parent_field(field_id(TODO_MODEL, 4)), Some(field_id(USER, 3)));
}

#[test]
fn clones_stand_on_their_own() {
    let mut collection = ItemCollection {
        path: vec![USER, TODO_MODEL],
        field_mapping: IndexMap::new(),
        model_column: Some(column_id(1)),
    };
    collection.link(field_id(TODO_MODEL, 4), field_id(USER, 0));
    collection.link(field_id(TODO_MODEL, 1), field_id(USER, 2));
    let copy = collection.clone();
    collection.link(field_id(TODO_MODEL, 4), field_id(USER, 3));
    assert_eq!(copy.path, vec![USER, TODO_MODEL]);
    assert_eq!(copy.model_column, Some(column_id(1)));
    let links: Vec<((usize, usize), (usize, usize))> =
        copy.field_mapping.iter().map(|(k, v)| (*k, *v)).collect();
    assert_eq!(links, vec![((1, 4), (0, 0)), ((1, 1), (0, 2))]);
}

#[test]
fn a_model_alone_needs_no_prefix() {
    let app = app::Schema { models: vec![user()] };
    let builder = Builder { table_name_prefix: Some("app_".to_string()) };
    let schema = build(&builder, &app).unwrap();
    let table = &schema.tables[0];
    assert_eq!(table.name, "app_users");
    assert_eq!(table.columns.len(), 1);
    assert_eq!(table.columns[0].name, "id");
    assert_eq!(table.indices[0].name, "index_app_users_by_id");
    let root = schema.mapping.model(USER);
    assert!(root.item_collection.path.is_empty());
    assert_eq!(root.item_collection.model_column, None);
    assert_eq!(root.columns, vec![column_id(0)]);
}

#[test]
fn the_model_column_holds_the_longest_name() {
    let mut models = users_and_todos().models;
    models[1].name = name("long_todo", "LongTodo", "long_todos");
    let builder = no_prefix();
    let schema = build(&builder, &app::Schema { models }).unwrap();
    assert_eq!(schema.tables[0].columns[1].storage_ty, StorageType::VarChar(8));
    assert_eq!(schema.tables[0].columns[2].name, "long_todo__id");
}

#[test]
fn models_that_ask_for_one_table_share_it() {
    let builder = Builder { table_name_prefix: Some("p_".to_string()) };
    let mut schema = BuildSchema {
        builder: &builder,
        tables: vec![],
        table_lookup: StringMap::new(),
        mapping: Mapping { models: vec![] },
    };
    let mut a = user();
    a.table_name = Some("shared".to_string());
    let mut b = user();
    b.id = ModelId(5);
    b.table_name = Some("shared".to_string());
    let plain = user();
    assert_eq!(schema.build_table_stub_for_model(&a), TableId(0));
    assert_eq!(schema.build_table_stub_for_model(&b), TableId(0));
    assert_eq!(schema.build_table_stub_for_model(&plain), TableId(1));
    assert_eq!(
        schema.build_table_stub_for_model(&todo_item(&[0, 1])),
        TableId::placeholder()
    );
    let names: Vec<&str> = schema.tables.iter().map(|t| t.name.as_str()).collect();
    assert_eq!(names, vec!["p_shared", "p_users"]);
    assert_eq!(schema.register_table("other"), TableId(2));
    assert_eq!(schema.prefix_table_name("x"), "p_x");
    assert_eq!(schema.table_name_from_model(&plain.name), "p_users");
}

#[test]
fn grandchildren_get_the_whole_path() {
    let comment = ModelId(2);
    let mut model = todo_item(&[0, 1]);
    model.id = comment;
    model.name = name("comment", "Comment", "comments");
    model.item_collection = Some(TODO_MODEL);
    for f in &mut model.fields {
        f.id.model = comment;
    }
    let to_user = ForeignKeyField { source: field_id(comment, 1), target: field_id(TODO_MODEL, 1) };
    model.fields[2].ty = FieldTy::BelongsTo(BelongsTo { foreign_key: vec![to_user] });
    for index in &mut model.indices {
        for f in &mut index.fields {
            f.field.model = comment;
        }
    }
    let mut models = users_and_todos().models;
    models.push(model);
    let app = app::Schema { models };
    let builder = no_prefix();
    let schema = build(&builder, &app).unwrap();
    let (table, path) = schema.find_item_collection_path(&app, &app.models[2]);
    assert_eq!(table, TableId(0));
    assert_eq!(path, vec![USER, TODO_MODEL, comment]);
    assert_eq!(schema.mapping.model(comment).item_collection.path, path);
    assert_eq!(schema.mapping.model(TODO_MODEL).item_collection.path, vec![USER, TODO_MODEL]);
    assert_eq!(schema.mapping.model(USER).item_collection.path, vec![USER]);
    // all of them share the column for the model name
    for model in [USER, TODO_MODEL, comment] {
        let column = schema.mapping.model(model).item_collection.model_column.unwrap();
        assert_eq!(schema.tables[0].columns[column.index].name, "__model");
        assert_eq!(column, column_id(1));
    }
    assert_eq!(
        schema.mapping.model(comment).column_of(1),
        schema.mapping.model(USER).column_of(0)
    );
}

#[test]
fn paths_do_not_depend_on_the_order_of_linking() {
    let app = users_and_todos();
    let builder = no_prefix();
    for order in [vec![0, 1], vec![1, 0], vec![1, 1]] {
        let mut schema = BuildSchema {
            builder: &builder,
            tables: vec![],
            table_lookup: StringMap::new(),
            mapping: Mapping { models: vec![] },
        };
        for model in &app.models {
            let table = schema.build_table_stub_for_model(model);
            schema.mapping.models.push(empty_mapping(model, table));
        }
        for i in order {
            assert!(schema.populate_item_collection_mapping(&app, &app.models[i]).is_ok());
        }
        assert_eq!(schema.mapping.model(USER).item_collection.path, vec![USER]);
        let child = schema.mapping.model(TODO_MODEL);
        assert_eq!(child.item_collection.path, vec![USER, TODO_MODEL]);
        assert_eq!(child.table, TableId(0));
        assert_eq!(child.item_collection.model_column, None);
    }
}

#[test]
fn only_parents_are_linked() {
    let team = ModelId(7);
    let mut outside = user();
    outside.id = team;
    outside.name = name("team", "Team", "teams");
    for f in &mut outside.fields {
        f.id.model = team;
    }
    outside.indices[0].fields[0].field.model = team;
    let mut child = todo_item(&[0, 1]);
    let to_team = ForeignKeyField { source: field_id(TODO_MODEL, 0), target: field_id(team, 0) };
    child.fields.push(field(
        field_id(TODO_MODEL, 4),
        "team",
        FieldTy::BelongsTo(BelongsTo { foreign_key: vec![to_team] }),
        false,
    ));
    let app = app::Schema { models: vec![user(), child, outside] };
    let builder = no_prefix();
    let schema = build(&builder, &app).unwrap();
    let links = &schema.mapping.model(TODO_MODEL).item_collection;
    assert!(links.is_linked(field_id(TODO_MODEL, 1)));
    assert!(!links.is_linked(field_id(TODO_MODEL, 0)));
    // a model without a collection has neither a path nor a column for its name
    let alone = &schema.mapping.model(team).item_collection;
    assert!(alone.path.is_empty());
    assert_eq!(alone.model_column, None);
    let names: Vec<&str> = schema.tables.iter().map(|t| t.name.as_str()).collect();
    assert_eq!(names, vec!["users", "teams"]);
    // a table with one model has plain names, one with several has prefixed ones
    assert_eq!(schema.tables[0].columns[0].name, "user__id");
    assert_eq!(schema.tables[1].columns[0].name, "id");
    for (i, table) in schema.tables.iter().enumerate() {
        assert_eq!(table.id, TableId(i));
        for (k, column) in table.columns.iter().enumerate() {
            assert_eq!(column.id, ColumnId { table: TableId(i), index: k });
        }
        for (k, index) in table.indices.iter().enumerate() {
            assert_eq!(index.id, IndexId { table: TableId(i), index: k });
            assert!(index.name.starts_with("index_"));
        }
        assert_eq!(schema.table_lookup.get(&table.name), Some(&table.id));
    }
}

fn equals(column: usize, value: &str) -> Expr {
    let reference = ExprReference::Column(ExprColumn { nesting: 0, table: 0, column });
    Expr::BinaryOp(ExprBinaryOp {
        lhs: Box::new(Expr::Reference(reference)),
        op: BinaryOp::Eq,
        rhs: Box::new(Expr::Value(text(value))),
    })
}

fn attribute<'m>(item: &'m StringMap<AttributeValue>, name: &str) -> Option<&'m str> {
    match item.get(name) {
        Some(AttributeValue::S(s)) => Some(s.as_str()),
        None => None,
        other => panic!("{other:?}"),
    }
}

fn inserted(schema: &db::Schema, columns: &[ColumnId], row: Vec<Value>) -> StringMap<AttributeValue> {
    let insert = Insert { table: TableId(0), columns: columns.to_vec(), rows: vec![row] };
    match try_plan_insert(schema, &insert) {
        Some((InsertPlan::PutItem(table, item), 1)) => {
            assert_eq!(table, "users");
            item
        }
        other => panic!("{other:?}"),
    }
}

#[test]
fn crud_user_todos() {
    let builder = no_prefix();
    let built = build(&builder, &users_and_todos()).unwrap();
    let mapping = built.mapping;
    let schema = db::Schema { tables: built.tables };
    let table = &schema.tables[0];

    // The table can be created
    let plan = try_plan_create_table(&schema, table, true).unwrap();
    assert_eq!(plan.delete, vec!["users".to_string()]);
    assert_eq!(plan.create.len(), 1);

    // Create a user
    let item = inserted(
        &schema,
        &mapping.model(USER).columns,
        vec![text("u1"), Value::Null, text("User")],
    );
    assert_eq!(attribute(&item, "user__id"), Some("u1"));
    assert_eq!(attribute(&item, "__sk"), Some("User#"));
    assert_eq!(item.len(), 2);

    // Create a to-do item associated with the user
    let todo = inserted(
        &schema,
        &mapping.model(TODO_MODEL).columns,
        vec![text("t1"), text("u1"), text("hello world"), text("Todo")],
    );
    assert_eq!(attribute(&todo, "user__id"), Some("u1"));
    assert_eq!(attribute(&todo, "todo__title"), Some("hello world"));
    assert_eq!(attribute(&todo, "__sk"), Some("Todo#t1#"));
    assert_eq!(attribute(&todo, "todo__id"), None);
    assert_eq!(todo.len(), 3);

    // Find the item by its key
    let key = ddb_key(table, &Value::Record(vec![text("u1"), text("Todo"), text("t1")]));
    assert_eq!(attribute(&key, "user__id"), attribute(&todo, "user__id"));
    assert_eq!(attribute(&key, "__sk"), attribute(&todo, "__sk"));
    assert_eq!(key.len(), 2);

    // Find it by user and identifier
    let by_id = QueryPk {
        table: TableId(0),
        pk_filter: Expr::And(vec![equals(0, "u1"), equals(1, "Todo"), equals(2, "t1")]),
        filter: None,
        select: mapping.model(TODO_MODEL).columns.clone(),
    };
    let query = try_plan_query_pk(&schema, &by_id).unwrap();
    assert_eq!(query.table_name, "users");
    assert_eq!(
        query.key_condition_expression,
        "#col_0 = :v_0 AND begins_with(#sk_col, :v_1)"
    );
    assert_eq!(query.filter_expression, None);
    assert_eq!(query.expression_attribute_names.get("#col_0"), Some(&"user__id".to_string()));
    assert_eq!(query.expression_attribute_names.get("#sk_col"), Some(&"__sk".to_string()));
    assert_eq!(attribute(&query.expression_attribute_values, ":v_0"), Some("u1"));
    assert_eq!(attribute(&query.expression_attribute_values, ":v_1"), Some("Todo#t1#"));

    // Find it by user
    let by_user = QueryPk {
        table: TableId(0),
        pk_filter: Expr::And(vec![equals(0, "u1"), equals(1, "Todo")]),
        filter: None,
        select: mapping.model(TODO_MODEL).columns.clone(),
    };
    let query = try_plan_query_pk(&schema, &by_user).unwrap();
    let prefix = attribute(&query.expression_attribute_values, ":v_1").unwrap();
    assert_eq!(prefix, "Todo#");
    assert!(attribute(&todo, "__sk").unwrap().starts_with(prefix));
    assert!(!attribute(&item, "__sk").unwrap().starts_with(prefix));

    // What was written is read back
    assert_eq!(
        read_item(&schema, &by_user, &todo),
        Some(vec![text("t1"), text("u1"), text("hello world"), text("Todo")])
    );
    let users = QueryPk { select: mapping.model(USER).columns.clone(), ..by_user };
    assert_eq!(
        read_item(&schema, &users, &item),
        Some(vec![text("u1"), Value::Null, text("User")])
    );
    assert_eq!(sort_key_columns(table), vec![column_id(1), column_id(2)]);
}

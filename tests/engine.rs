use ferrum_engine::executor::{
    ColumnSpec, Expr, ForeignKeySpec, FunctionArg, OrderKey, SelectItem, SelectQuery, SqlExecutor, SqlResult, SqlType,
    Statement,
};
use ferrum_engine::registry::DatabaseRegistry;
use ferrum_engine::session::Session;

fn run(session: &mut Session, statement: Statement) -> Result<SqlResult, String> {
    SqlExecutor::new(statement).execute(session)
}

fn num(s: &str) -> Expr {
    Expr::Number(s.to_string())
}

fn text(s: &str) -> Expr {
    Expr::Text(s.to_string())
}

fn col(s: &str) -> Expr {
    Expr::Column(s.to_string())
}

fn eq(l: Expr, r: Expr) -> Expr {
    Expr::Eq(Box::new(l), Box::new(r))
}

fn select(projection: Vec<SelectItem>, table: &str) -> SelectQuery {
    SelectQuery { projection, table: table.to_string(), selection: None, order_by: vec![], limit: None, offset: None }
}

fn rows_of(result: &SqlResult) -> Vec<Vec<Option<String>>> {
    result.table.as_ref().unwrap().scan().into_iter().map(|r| r.0).collect()
}

fn cells(values: &[&str]) -> Vec<Option<String>> {
    values.iter().map(|v| Some(v.to_string())).collect()
}

/// A session with database `x` in use and table `t (id INT PRIMARY KEY, name VARCHAR(50))`.
fn session_with_t() -> Session {
    let mut s = Session::client(DatabaseRegistry::new(), 0);
    run(&mut s, Statement::CreateDatabase { name: "x".to_string(), if_not_exists: true }).unwrap();
    run(&mut s, Statement::UseDatabase("x".to_string())).unwrap();
    run(
        &mut s,
        Statement::CreateTable {
            name: "t".to_string(),
            columns: vec![
                ColumnSpec { name: "id".to_string(), datatype: SqlType::Number, primary: true },
                ColumnSpec { name: "name".to_string(), datatype: SqlType::Text, primary: false },
            ],
            foreign_keys: vec![],
        },
    )
    .unwrap();
    s
}

fn insert_abc(s: &mut Session, n: usize) {
    let all = vec![vec![num("1"), text("a")], vec![num("2"), text("b")], vec![num("3"), text("c")]];
    let rows = all.into_iter().take(n).collect();
    let r = run(s, Statement::Insert { table: "t".to_string(), rows }).unwrap();
    assert_eq!(r.processed, Some(n));
}

#[test]
fn scenario_select_where_equals() {
    let mut s = session_with_t();
    insert_abc(&mut s, 2);
    let mut q = select(vec![SelectItem::Wildcard], "t");
    q.selection = Some(eq(col("id"), num("2")));
    let r = run(&mut s, Statement::Select(q)).unwrap();
    assert_eq!(rows_of(&r), vec![cells(&["2", "b"])]);
    assert_eq!(r.processed, Some(2));
}

#[test]
fn scenario_foreign_key_violation() {
    let mut s = Session::client(DatabaseRegistry::new(), 0);
    run(&mut s, Statement::CreateDatabase { name: "x".to_string(), if_not_exists: false }).unwrap();
    run(&mut s, Statement::UseDatabase("x".to_string())).unwrap();
    run(
        &mut s,
        Statement::CreateTable {
            name: "p".to_string(),
            columns: vec![ColumnSpec { name: "id".to_string(), datatype: SqlType::Number, primary: true }],
            foreign_keys: vec![],
        },
    )
    .unwrap();
    run(
        &mut s,
        Statement::CreateTable {
            name: "c".to_string(),
            columns: vec![
                ColumnSpec { name: "id".to_string(), datatype: SqlType::Number, primary: true },
                ColumnSpec { name: "pid".to_string(), datatype: SqlType::Number, primary: false },
            ],
            foreign_keys: vec![ForeignKeySpec { column: "pid".to_string(), table: "p".to_string(), referenced: "id".to_string() }],
        },
    )
    .unwrap();
    let r = run(&mut s, Statement::Insert { table: "c".to_string(), rows: vec![vec![num("1"), num("99")]] });
    assert_eq!(r.err(), Some("does not exist: 99 in p.id".to_string()));
}

#[test]
fn scenario_order_by_desc_limit() {
    let mut s = session_with_t();
    insert_abc(&mut s, 3);
    let mut q = select(vec![SelectItem::Wildcard], "t");
    q.order_by = vec![OrderKey { column: "id".to_string(), ascending: Some(false) }];
    q.limit = Some(2);
    let r = run(&mut s, Statement::Select(q)).unwrap();
    assert_eq!(rows_of(&r), vec![cells(&["3", "c"]), cells(&["2", "b"])]);
}

#[test]
fn scenario_count_star_alias() {
    let mut s = session_with_t();
    insert_abc(&mut s, 3);
    let q = select(
        vec![SelectItem::Function { name: "COUNT".to_string(), args: vec![FunctionArg::Wildcard], alias: Some("n".to_string()) }],
        "t",
    );
    let r = run(&mut s, Statement::Select(q)).unwrap();
    let reader = r.table.as_ref().unwrap();
    assert_eq!(reader.schema.column_names(), vec!["n".to_string()]);
    assert_eq!(rows_of(&r), vec![cells(&["3"])]);
}

#[test]
fn scenario_delete_where_shifts_index() {
    let mut s = session_with_t();
    insert_abc(&mut s, 3);
    let r = run(&mut s, Statement::Delete { table: "t".to_string(), selection: Some(eq(col("id"), num("2"))) }).unwrap();
    assert_eq!(r.processed, Some(1));
    let r = run(&mut s, Statement::Select(select(vec![SelectItem::Wildcard], "t"))).unwrap();
    assert_eq!(rows_of(&r), vec![cells(&["1", "a"]), cells(&["3", "c"])]);
    let t = s.get_active_database().unwrap().get_table("t").unwrap();
    assert_eq!(t.index_lookup("3"), Some(1));
    assert_eq!(t.index_lookup("2"), None);
}

#[test]
fn scenario_update_where_or() {
    let mut s = session_with_t();
    insert_abc(&mut s, 2);
    let cond = Expr::Or(Box::new(eq(col("id"), num("1"))), Box::new(eq(col("id"), num("2"))));
    let r = run(
        &mut s,
        Statement::Update { table: "t".to_string(), assignments: vec![("name".to_string(), text("z"))], selection: Some(cond) },
    )
    .unwrap();
    assert_eq!(r.processed, Some(2));
    let q = select(vec![SelectItem::Column { name: "name".to_string(), alias: None }], "t");
    let r = run(&mut s, Statement::Select(q)).unwrap();
    assert_eq!(rows_of(&r), vec![cells(&["z"]), cells(&["z"])]);
}

#[test]
fn select_mixing_aggregator_and_column_is_refused() {
    let mut s = session_with_t();
    insert_abc(&mut s, 3);
    let q = select(
        vec![
            SelectItem::Function { name: "count".to_string(), args: vec![FunctionArg::Wildcard], alias: None },
            SelectItem::Column { name: "id".to_string(), alias: None },
        ],
        "t",
    );
    assert!(run(&mut s, Statement::Select(q)).is_err());
}

#[test]
fn select_scalar_add_and_offset() {
    let mut s = session_with_t();
    insert_abc(&mut s, 3);
    let mut q = select(
        vec![
            SelectItem::Column { name: "name".to_string(), alias: Some("who".to_string()) },
            SelectItem::Function {
                name: "add".to_string(),
                args: vec![FunctionArg::Column("id".to_string()), FunctionArg::Literal("10".to_string())],
                alias: Some("plus".to_string()),
            },
        ],
        "t",
    );
    q.offset = Some(1);
    let r = run(&mut s, Statement::Select(q)).unwrap();
    assert_eq!(r.table.as_ref().unwrap().schema.column_names(), vec!["who".to_string(), "plus".to_string()]);
    assert_eq!(rows_of(&r), vec![cells(&["b", "12"]), cells(&["c", "13"])]);
}

#[test]
fn order_by_without_direction_is_ignored() {
    let mut s = session_with_t();
    insert_abc(&mut s, 3);
    let mut q = select(vec![SelectItem::Wildcard], "t");
    q.order_by = vec![OrderKey { column: "name".to_string(), ascending: None }];
    let r = run(&mut s, Statement::Select(q)).unwrap();
    assert_eq!(rows_of(&r).len(), 3);
    assert_eq!(rows_of(&r)[0], cells(&["1", "a"]));
}

#[test]
fn where_on_unknown_column_is_refused() {
    let mut s = session_with_t();
    insert_abc(&mut s, 1);
    let mut q = select(vec![SelectItem::Wildcard], "t");
    q.selection = Some(eq(col("nope"), num("1")));
    assert!(run(&mut s, Statement::Select(q)).is_err());
}

#[test]
fn unsupported_statement_is_refused() {
    let mut s = session_with_t();
    assert!(run(&mut s, Statement::Unsupported("ALTER".to_string())).is_err());
}

#[test]
fn show_tables_and_databases() {
    let mut s = session_with_t();
    let r = run(&mut s, Statement::ShowTables).unwrap();
    assert_eq!(rows_of(&r), vec![cells(&["t"])]);
    let r = run(&mut s, Statement::ShowDatabases).unwrap();
    assert_eq!(rows_of(&r), vec![cells(&["x"])]);
}

#[test]
fn create_and_drop_database() {
    let mut s = Session::client(DatabaseRegistry::new(), 0);
    run(&mut s, Statement::CreateDatabase { name: "a".to_string(), if_not_exists: false }).unwrap();
    assert!(run(&mut s, Statement::CreateDatabase { name: "a".to_string(), if_not_exists: false }).is_err());
    assert!(run(&mut s, Statement::CreateDatabase { name: "a".to_string(), if_not_exists: true }).is_ok());
    run(&mut s, Statement::DropDatabase { name: "a".to_string(), if_exists: false }).unwrap();
    assert!(run(&mut s, Statement::DropDatabase { name: "a".to_string(), if_exists: false }).is_err());
    assert!(run(&mut s, Statement::DropDatabase { name: "a".to_string(), if_exists: true }).is_ok());
    assert!(s.get_available_databases().is_empty());
    let handle = s.create_database("b", false).unwrap();
    assert_eq!(handle.name(), "b".to_string());
    assert!(s.drop_database("b").is_some());
}

#[test]
fn statements_need_an_active_database() {
    let mut s = Session::client(DatabaseRegistry::new(), 0);
    assert!(run(&mut s, Statement::ShowTables).is_err());
    assert!(run(&mut s, Statement::UseDatabase("missing".to_string())).is_err());
}

#[test]
fn insert_negative_number_is_refused_by_number_column() {
    let mut s = session_with_t();
    let r = run(
        &mut s,
        Statement::Insert { table: "t".to_string(), rows: vec![vec![Expr::Negative(Box::new(num("5"))), text("a")]] },
    );
    assert!(r.is_err());
}

#[test]
fn session_history() {
    let mut s = Session::client(DatabaseRegistry::new(), 7);
    s.add_to_command_history("first", 10);
    s.add_to_command_history("second", 11);
    assert_eq!(s.get_last_command(1), Some("second".to_string()));
    assert_eq!(s.get_last_command(2), Some("first".to_string()));
    assert_eq!(s.get_last_command(3), None);
    assert_eq!(s.get_last_command(0), None);
    assert_eq!(s.recent_commands(Some(1)), vec![("second".to_string(), 11)]);
    assert_eq!(s.recent_commands(None).len(), 2);
    assert_eq!(s.start_time(), 7);
}

use titan_db::catalog::{Catalog, ColumnDef, DataType};
use titan_db::error::TitanError;
use titan_db::pager::Pager;
use titan_db::sql::{ExecutionResult, Executor, Statement};
use titan_db::transaction::{TransactionContext, TransactionId};

fn id_column() -> ColumnDef {
    ColumnDef { name: String::from("id"), data_type: DataType::Integer, nullable: true }
}

#[test]
fn create_table_allocates_root_and_records_it() {
    let mut pager = Pager::open(Vec::new());
    let mut exec = Executor::new(Catalog::new());
    let stmt = Statement::CreateTable { name: String::from("users"), columns: vec![id_column()] };
    let res = exec.execute_statement(&mut pager, stmt).unwrap();
    match res {
        ExecutionResult::Message(m) => assert_eq!(m, "Table users created."),
        _ => panic!("expected a message"),
    }
    assert_eq!(exec.catalog().tables.len(), 1);
    assert_eq!(exec.catalog().tables[0].name, "users");
    assert_eq!(exec.catalog().tables[0].root_page_id, 0);
    assert_eq!(pager.total_pages(), 1);
}

#[test]
fn create_table_twice_fails() {
    let mut pager = Pager::open(Vec::new());
    let mut exec = Executor::new(Catalog::new());
    let make = || Statement::CreateTable { name: String::from("t"), columns: vec![id_column()] };
    exec.execute_statement(&mut pager, make()).unwrap();
    assert_eq!(exec.execute_statement(&mut pager, make()).unwrap_err(), TitanError::Io);
}

#[test]
fn insert_statement_needs_a_known_table() {
    let mut pager = Pager::open(Vec::new());
    let mut exec = Executor::new(Catalog::new());
    let create = Statement::CreateTable { name: String::from("t"), columns: vec![id_column()] };
    exec.execute_statement(&mut pager, create).unwrap();
    let res = exec
        .execute_statement(&mut pager, Statement::Insert { table: String::from("t") })
        .unwrap();
    match res {
        ExecutionResult::Message(m) => assert_eq!(m, "Inserted into t."),
        _ => panic!("expected a message"),
    }
    let err = exec
        .execute_statement(&mut pager, Statement::Insert { table: String::from("nope") })
        .unwrap_err();
    assert_eq!(err, TitanError::PageNotFound(0));
}

#[test]
fn select_reports_placeholder_rows() {
    let mut pager = Pager::open(Vec::new());
    let mut exec = Executor::new(Catalog::new());
    let res = exec
        .execute_statement(
            &mut pager,
            Statement::Query { select_table: Some(String::from("users")) },
        )
        .unwrap();
    match res {
        ExecutionResult::ResultSet { columns, rows } => {
            assert_eq!(columns, vec!["id", "name", "age"]);
            assert_eq!(rows, vec![vec!["1", "Alice", "30"], vec!["2", "Bob", "25"]]);
        },
        _ => panic!("expected a result set"),
    }
    let res = exec
        .execute_statement(&mut pager, Statement::Query { select_table: None })
        .unwrap();
    match res {
        ExecutionResult::Message(m) => assert_eq!(m, "Complex query not implemented."),
        _ => panic!("expected a message"),
    }
}

#[test]
fn remaining_statements_are_acknowledged() {
    let mut pager = Pager::open(Vec::new());
    let mut exec = Executor::new(Catalog::new());
    let cases: Vec<(Statement, &str)> = vec![
        (Statement::AlterTable { name: String::from("t") }, "Table t altered."),
        (Statement::Drop { description: String::from("Table [t]") }, "Table [t] dropped."),
        (Statement::Delete, "Delete statement executed."),
        (Statement::Update { table: String::from("t") }, "Updated t."),
        (
            Statement::Other { summary: String::from("Commit") },
            "Statement Commit parsed but execution not yet implemented.",
        ),
    ];
    for (stmt, expect) in cases {
        match exec.execute_statement(&mut pager, stmt).unwrap() {
            ExecutionResult::Message(m) => assert_eq!(m, expect),
            _ => panic!("expected a message"),
        }
    }
}

#[test]
fn execute_reports_last_result_or_default() {
    let mut pager = Pager::open(Vec::new());
    let mut exec = Executor::new(Catalog::new());
    match exec.execute(&mut pager, Vec::new()).unwrap() {
        ExecutionResult::Message(m) => assert_eq!(m, "No statements executed"),
        _ => panic!("expected a message"),
    }
    let stmts = vec![
        Statement::CreateTable { name: String::from("t"), columns: vec![id_column()] },
        Statement::Insert { table: String::from("t") },
    ];
    match exec.execute(&mut pager, stmts).unwrap() {
        ExecutionResult::Message(m) => assert_eq!(m, "Inserted into t."),
        _ => panic!("expected a message"),
    }
}

#[test]
fn render_formats_messages_and_result_sets() {
    let msg = ExecutionResult::Message(String::from("hello"));
    assert_eq!(msg.render(), "hello");
    let rs = ExecutionResult::ResultSet {
        columns: vec![String::from("id"), String::from("name"), String::from("age")],
        rows: vec![
            vec![String::from("1"), String::from("Alice"), String::from("30")],
            vec![String::from("2"), String::from("Bob"), String::from("25")],
        ],
    };
    let expected = format!(
        "id | name | age\n{}\n1 | Alice | 30\n2 | Bob | 25\n",
        "-".repeat(30)
    );
    assert_eq!(rs.render(), expected);
}

#[test]
fn catalog_lookup_and_uniqueness() {
    let mut pager = Pager::open(Vec::new());
    let mut exec = Executor::new(Catalog::new());
    let create = Statement::CreateTable { name: String::from("a"), columns: Vec::new() };
    exec.execute_statement(&mut pager, create).unwrap();
    assert!(exec.catalog().find_table(&String::from("a")).is_some());
    assert!(exec.catalog().find_table(&String::from("b")).is_none());
}

#[test]
fn transaction_context_starts_at_zero() {
    let ctx = TransactionContext::new();
    assert_eq!(ctx.tx_id, TransactionId(0));
    assert_eq!(ctx.read_ts, TransactionId(0));
}

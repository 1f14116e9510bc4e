use databas::ast::{Column, ColumnConstraint, ColumnType, CreateTableQuery, Statement};
use databas::parser::Parser;
use databas::sql_error::{SQLError, SQLErrorKind};
use databas::token::TokenKind;

fn column(name: &str, column_type: ColumnType, constraints: Vec<ColumnConstraint>) -> Column {
    Column { name: name.to_string(), column_type, constraints }
}

#[test]
fn test_parse_simple_create_table() {
    let s = "CREATE TABLE users (id INT, name TEXT, age INT);";
    let mut parser = Parser::new(s);

    let expected_query = CreateTableQuery {
        table_name: "users".to_string(),
        columns: vec![
            column("id", ColumnType::Int, vec![]),
            column("name", ColumnType::Text, vec![]),
            column("age", ColumnType::Int, vec![]),
        ],
    };

    assert_eq!(Ok(Statement::CreateTable(expected_query)), parser.stmt());
}

#[test]
fn test_parse_create_table_with_all_types() {
    let s = "CREATE TABLE products (id INT, name TEXT, price FLOAT);";
    let mut parser = Parser::new(s);

    let expected_query = CreateTableQuery {
        table_name: "products".to_string(),
        columns: vec![
            column("id", ColumnType::Int, vec![]),
            column("name", ColumnType::Text, vec![]),
            column("price", ColumnType::Float, vec![]),
        ],
    };

    assert_eq!(Ok(Statement::CreateTable(expected_query)), parser.stmt());
}

#[test]
fn test_parse_create_table_with_single_column() {
    let s = "CREATE TABLE single_column (id INT);";
    let mut parser = Parser::new(s);

    let expected_query = CreateTableQuery {
        table_name: "single_column".to_string(),
        columns: vec![column("id", ColumnType::Int, vec![])],
    };

    assert_eq!(Ok(Statement::CreateTable(expected_query)), parser.stmt());
}

#[test]
fn test_parse_create_table_invalid_column_type() {
    let s = "CREATE TABLE invalid (id INVALID_TYPE);";
    let mut parser = Parser::new(s);

    let err = SQLError {
        kind: SQLErrorKind::InvalidDataType {
            got: TokenKind::Identifier("INVALID_TYPE".to_string()),
        },
        pos: 25,
    };

    assert_eq!(Err(err), parser.stmt());
}

#[test]
fn test_create_table_with_missing_table_name() {
    let s = "CREATE TABLE (id INT);";
    let mut parser = Parser::new(s);

    let err = SQLError {
        kind: SQLErrorKind::ExpectedIdentifier { got: TokenKind::LeftParen },
        pos: 14,
    };

    assert_eq!(Err(err), parser.stmt());
}

#[test]
fn test_create_table_with_primary_key_constraint() {
    let s = "CREATE TABLE users (id INT PRIMARY KEY, name TEXT);";
    let mut parser = Parser::new(s);

    let expected_query = CreateTableQuery {
        table_name: "users".to_string(),
        columns: vec![
            column("id", ColumnType::Int, vec![ColumnConstraint::PrimaryKey]),
            column("name", ColumnType::Text, vec![]),
        ],
    };

    assert_eq!(Ok(Statement::CreateTable(expected_query)), parser.stmt());
}

#[test]
fn test_create_table_with_nullable_constraint() {
    let s = "CREATE TABLE users (id INT, name TEXT NULLABLE);";
    let mut parser = Parser::new(s);

    let expected_query = CreateTableQuery {
        table_name: "users".to_string(),
        columns: vec![
            column("id", ColumnType::Int, vec![]),
            column("name", ColumnType::Text, vec![ColumnConstraint::Nullable]),
        ],
    };

    assert_eq!(Ok(Statement::CreateTable(expected_query)), parser.stmt());
}

#[test]
fn test_columns_not_nullable_by_default() {
    let s = "CREATE TABLE test (a INT);";
    let mut parser = Parser::new(s);

    let expected_query = CreateTableQuery {
        table_name: "test".to_string(),
        columns: vec![column("a", ColumnType::Int, vec![])],
    };

    assert_eq!(Ok(Statement::CreateTable(expected_query)), parser.stmt());
}

#[test]
fn test_create_table_with_duplicate_nullable_constraint() {
    let s = "CREATE TABLE users (id INT NULLABLE NULLABLE, name TEXT);";
    let mut parser = Parser::new(s);

    let err = SQLError {
        kind: SQLErrorKind::DuplicateConstraint {
            column: "id".to_string(),
            constraint: ColumnConstraint::Nullable,
        },
        pos: 36,
    };

    assert_eq!(Err(err), parser.stmt());
}

#[test]
fn test_create_table_with_duplicate_primary_key_constraint() {
    let s = "CREATE TABLE users (id INT PRIMARY KEY PRIMARY KEY, name TEXT);";
    let mut parser = Parser::new(s);

    let err = SQLError {
        kind: SQLErrorKind::DuplicateConstraint {
            column: "id".to_string(),
            constraint: ColumnConstraint::PrimaryKey,
        },
        pos: 39,
    };

    assert_eq!(Err(err), parser.stmt());
}

use databas::ast::{Expression, ExpressionList, Literal, Op, OrderBy, Ordering, SelectQuery,
    Statement};
use databas::parser::Parser;
use databas::sql_error::{SQLError, SQLErrorKind};
use databas::token::{Keyword, NumberKind, TokenKind};

fn ident(name: &str) -> Expression {
    Expression::Identifier(name.to_string())
}

fn int_lit(value: i32) -> Expression {
    Expression::Literal(Literal::Number(NumberKind::Integer(value)))
}

#[test]
fn test_parse_select_query() {
    let s = "SELECT abc, def, ghi;";
    let mut parser = Parser::new(s);
    let expected_query = SelectQuery {
        columns: ExpressionList(vec![ident("abc"), ident("def"), ident("ghi")]),
        table: None,
        where_clause: None,
        order_by: None,
        limit: None,
        offset: None,
    };
    assert_eq!(Ok(Statement::Select(expected_query)), parser.stmt());
}

#[test]
fn test_parse_select_query_with_from_table() {
    let s = "SELECT abc, def, ghi FROM big_table;";
    let mut parser = Parser::new(s);
    let expected_query = SelectQuery {
        columns: ExpressionList(vec![ident("abc"), ident("def"), ident("ghi")]),
        table: Some("big_table".to_string()),
        where_clause: None,
        order_by: None,
        limit: None,
        offset: None,
    };
    assert_eq!(Ok(Statement::Select(expected_query)), parser.stmt());
}

#[test]
fn test_parse_select_query_with_from_table_and_where_clause() {
    let s = "SELECT abc, def, ghi FROM some_table WHERE abc < def;";
    let mut parser = Parser::new(s);
    let expected_query = SelectQuery {
        columns: ExpressionList(vec![ident("abc"), ident("def"), ident("ghi")]),
        table: Some("some_table".to_string()),
        where_clause: Some(Expression::BinaryOp((
            Box::new(ident("abc")),
            Op::LessThan,
            Box::new(ident("def")),
        ))),
        order_by: None,
        limit: None,
        offset: None,
    };
    assert_eq!(Ok(Statement::Select(expected_query)), parser.stmt());
}

#[test]
fn test_parse_select_query_without_from() {
    let s = "SELECT 3 WHERE 1;";
    let mut parser = Parser::new(s);
    let expected_query = SelectQuery {
        columns: ExpressionList(vec![int_lit(3)]),
        table: None,
        where_clause: Some(int_lit(1)),
        order_by: None,
        limit: None,
        offset: None,
    };
    assert_eq!(Ok(Statement::Select(expected_query)), parser.stmt());
}

#[test]
fn test_parse_invalid_select_query() {
    let s = "SELECT";
    let mut parser = Parser::new(s);
    let expected = Err(SQLError::new(SQLErrorKind::ExpectedExpression, 6));
    assert_eq!(expected, parser.stmt());

    let s = "SELECT 1";
    let mut parser = Parser::new(s);
    let expected = Err(SQLError::new(SQLErrorKind::ExpectedCommaOrSemicolon, 8));
    assert_eq!(expected, parser.stmt());

    let s = "SELECT 1,";
    let mut parser = Parser::new(s);
    let expected = Err(SQLError::new(SQLErrorKind::ExpectedExpression, 9));
    assert_eq!(expected, parser.stmt());
}

#[test]
fn test_parse_select_query_with_order_by() {
    let s = "SELECT foo FROM bar WHERE baz ORDER BY qax, quux DESC;";
    let mut parser = Parser::new(s);
    let expected_query = SelectQuery {
        columns: ExpressionList(vec![ident("foo")]),
        table: Some("bar".to_string()),
        where_clause: Some(ident("baz")),
        order_by: Some(OrderBy {
            terms: ExpressionList(vec![ident("qax"), ident("quux")]),
            order: Some(Ordering::Descending),
        }),
        limit: None,
        offset: None,
    };
    assert_eq!(Ok(Statement::Select(expected_query)), parser.stmt());

    let s = "SELECT foo FROM bar WHERE baz ORDER BY qax ASC;";
    let mut parser = Parser::new(s);
    let expected_query = SelectQuery {
        columns: ExpressionList(vec![ident("foo")]),
        table: Some("bar".to_string()),
        where_clause: Some(ident("baz")),
        order_by: Some(OrderBy {
            terms: ExpressionList(vec![ident("qax")]),
            order: Some(Ordering::Ascending),
        }),
        limit: None,
        offset: None,
    };
    assert_eq!(Ok(Statement::Select(expected_query)), parser.stmt());
}

#[test]
fn test_parse_select_query_with_limit() {
    let s = "SELECT foo FROM bar LIMIT 5;";
    let mut parser = Parser::new(s);
    let expected_query = SelectQuery {
        columns: ExpressionList(vec![ident("foo")]),
        table: Some("bar".to_string()),
        where_clause: None,
        order_by: None,
        limit: Some(5),
        offset: None,
    };
    assert_eq!(Ok(Statement::Select(expected_query)), parser.stmt());

    let s = "SELECT foo FROM bar WHERE baz ORDER BY qux LIMIT 10;";
    let mut parser = Parser::new(s);
    let expected_query = SelectQuery {
        columns: ExpressionList(vec![ident("foo")]),
        table: Some("bar".to_string()),
        where_clause: Some(ident("baz")),
        order_by: Some(OrderBy { terms: ExpressionList(vec![ident("qux")]), order: None }),
        limit: Some(10),
        offset: None,
    };
    assert_eq!(Ok(Statement::Select(expected_query)), parser.stmt());

    let s = "SELECT foo LIMIT -1;";
    let mut parser = Parser::new(s);
    let expected = SQLError::new(SQLErrorKind::ExpectedNonNegativeInteger { got: -1 }, 17);
    assert_eq!(Err(expected), parser.stmt());
}

#[test]
fn test_parse_select_query_with_offset() {
    let s = "SELECT foo FROM bar OFFSET 5;";
    let mut parser = Parser::new(s);
    let expected_query = SelectQuery {
        columns: ExpressionList(vec![ident("foo")]),
        table: Some("bar".to_string()),
        where_clause: None,
        order_by: None,
        limit: None,
        offset: Some(5),
    };
    assert_eq!(Ok(Statement::Select(expected_query)), parser.stmt());

    let s = "SELECT foo FROM bar LIMIT 10 OFFSET 5;";
    let mut parser = Parser::new(s);
    let expected_query = SelectQuery {
        columns: ExpressionList(vec![ident("foo")]),
        table: Some("bar".to_string()),
        where_clause: None,
        order_by: None,
        limit: Some(10),
        offset: Some(5),
    };
    assert_eq!(Ok(Statement::Select(expected_query)), parser.stmt());
}

#[test]
fn test_parse_select_with_invalid_table_name() {
    let s = "SELECT col FROM table;";
    let mut parser = Parser::new(s);
    let got = parser.stmt();
    let expected = SQLError {
        kind: SQLErrorKind::ExpectedIdentifier { got: TokenKind::Keyword(Keyword::Table) },
        pos: 21,
    };
    assert_eq!(Err(expected), got);
}

#[test]
fn select_scenario_with_every_clause() {
    let s = "SELECT abc, def, ghi FROM t WHERE abc < def ORDER BY ghi DESC LIMIT 5 OFFSET 10;";
    let mut parser = Parser::new(s);
    let expected_query = SelectQuery {
        columns: ExpressionList(vec![ident("abc"), ident("def"), ident("ghi")]),
        table: Some("t".to_string()),
        where_clause: Some(Expression::BinaryOp((
            Box::new(ident("abc")),
            Op::LessThan,
            Box::new(ident("def")),
        ))),
        order_by: Some(OrderBy {
            terms: ExpressionList(vec![ident("ghi")]),
            order: Some(Ordering::Descending),
        }),
        limit: Some(5),
        offset: Some(10),
    };
    assert_eq!(Ok(Statement::Select(expected_query)), parser.stmt());
}

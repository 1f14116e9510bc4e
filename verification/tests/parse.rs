use databas::ast::{AggregateFunction, AggregateFunctionKind, Expression, ExpressionList, Literal,
    Op, SelectQuery, Statement};
use databas::parser::Parser;
use databas::sql_error::{SQLError, SQLErrorKind};
use databas::token::NumberKind;
use databas::token::TokenKind;

fn int_lit(value: i32) -> Expression {
    Expression::Literal(Literal::Number(NumberKind::Integer(value)))
}

fn ident(name: &str) -> Expression {
    Expression::Identifier(name.to_string())
}

fn agg(kind: AggregateFunctionKind, expr: Expression) -> Expression {
    Expression::AggregateFunction(AggregateFunction { kind, expr: Box::new(expr) })
}

#[test]
fn test_parse_plus_exp() {
    let s = "12 + 34";
    let parser = Parser::new(s);
    let expected = Expression::BinaryOp((Box::new(int_lit(12)), Op::Add, Box::new(int_lit(34))));
    assert_eq!(Ok(expected), parser.expr())
}

#[test]
fn test_parse_mul_and_plus_exp() {
    let s = "12 + 34 * 56";
    let parser = Parser::new(s);
    let expected = {
        let product = Expression::BinaryOp((Box::new(int_lit(34)), Op::Mul, Box::new(int_lit(56))));
        Expression::BinaryOp((Box::new(int_lit(12)), Op::Add, Box::new(product)))
    };
    assert_eq!(Ok(expected), parser.expr())
}

#[test]
fn test_parse_mul_and_plus_exp_with_parens() {
    let s = "12 + (34 * 56)";
    let parser = Parser::new(s);
    let expected = {
        let product = Expression::BinaryOp((Box::new(int_lit(34)), Op::Mul, Box::new(int_lit(56))));
        Expression::BinaryOp((Box::new(int_lit(12)), Op::Add, Box::new(product)))
    };
    assert_eq!(Ok(expected), parser.expr())
}

#[test]
fn test_parse_not_exp() {
    let s = "not true";
    let parser = Parser::new(s);
    let expected = Expression::UnaryOp((
        Op::Not,
        Box::new(Expression::Literal(Literal::Boolean(true))),
    ));
    assert_eq!(Ok(expected), parser.expr());

    let s = "not false";
    let parser = Parser::new(s);
    let expected = Expression::UnaryOp((
        Op::Not,
        Box::new(Expression::Literal(Literal::Boolean(false))),
    ));
    assert_eq!(Ok(expected), parser.expr());

    let s = "not (a AND (b != c))";
    let parser = Parser::new(s);
    let expected = {
        let d = Expression::BinaryOp((Box::new(ident("b")), Op::NotEquals, Box::new(ident("c"))));
        let e = Expression::BinaryOp((Box::new(ident("a")), Op::And, Box::new(d)));
        Expression::UnaryOp((Op::Not, Box::new(e)))
    };
    assert_eq!(Ok(expected), parser.expr());
}

#[test]
fn test_negative_exp() {
    let s = "-12";
    let parser = Parser::new(s);
    let expected = Expression::UnaryOp((Op::Sub, Box::new(int_lit(12))));
    assert_eq!(Ok(expected), parser.expr());
}

#[test]
fn test_invalid_operator() {
    let s = "operand invalid_operator";
    let parser = Parser::new(s);
    let expected_err = SQLError::new(
        SQLErrorKind::InvalidOperator { op: TokenKind::Identifier("invalid_operator".to_string()) },
        8,
    );
    assert_eq!(Err(expected_err), parser.expr());
}

#[test]
fn test_parse_inequality_operators() {
    let cases = [
        ("12 < 34", Op::LessThan),
        ("12 <= 34", Op::LessThanOrEqual),
        ("12 > 34", Op::GreaterThan),
        ("12 >= 34", Op::GreaterThanOrEqual),
    ];
    for (s, op) in cases {
        let parser = Parser::new(s);
        let expected = Expression::BinaryOp((Box::new(int_lit(12)), op, Box::new(int_lit(34))));
        assert_eq!(Ok(expected), parser.expr());
    }
}

#[test]
fn test_parse_non_negative_integer() {
    let mut parser = Parser::new("123");
    assert_eq!(parser.parse_non_negative_integer(), Ok(Some(123)));

    let mut parser = Parser::new("-123");
    assert_eq!(
        parser.parse_non_negative_integer(),
        Err(SQLError { kind: SQLErrorKind::ExpectedNonNegativeInteger { got: -123 }, pos: 0 })
    );

    let mut parser = Parser::new("abc");
    assert_eq!(
        parser.parse_non_negative_integer(),
        Err(SQLError {
            kind: SQLErrorKind::ExpectedInteger { got: TokenKind::Identifier("abc".to_string()) },
            pos: 0
        })
    );
}

#[test]
fn test_all_aggregate_functions() {
    let sql =
        "SELECT COUNT(*), SUM(price), AVG(price), STDDEV(price), MAX(price), MIN(price) FROM products;";
    let mut parser = Parser::new(sql);
    let query = parser.stmt();

    let expected_query = Statement::Select(SelectQuery {
        table: Some("products".to_string()),
        columns: ExpressionList(vec![
            agg(AggregateFunctionKind::Count, Expression::Wildcard),
            agg(AggregateFunctionKind::Sum, ident("price")),
            agg(AggregateFunctionKind::Avg, ident("price")),
            agg(AggregateFunctionKind::StdDev, ident("price")),
            agg(AggregateFunctionKind::Max, ident("price")),
            agg(AggregateFunctionKind::Min, ident("price")),
        ]),
        where_clause: None,
        order_by: None,
        limit: None,
        offset: None,
    });
    assert_eq!(query, Ok(expected_query));
}

#[test]
fn test_aggregate_function_struct_usage() {
    let sum_func = AggregateFunction {
        kind: AggregateFunctionKind::Sum,
        expr: Box::new(ident("salary")),
    };

    assert_eq!(sum_func.kind, AggregateFunctionKind::Sum);
    assert_eq!(*sum_func.expr, ident("salary"));

    let kinds = vec![
        AggregateFunctionKind::Count,
        AggregateFunctionKind::Avg,
        AggregateFunctionKind::Max,
        AggregateFunctionKind::Min,
        AggregateFunctionKind::StdDev,
    ];

    for kind in kinds {
        let agg = AggregateFunction { kind, expr: Box::new(Expression::Wildcard) };
        assert_eq!(agg.kind, kind);
        assert_eq!(*agg.expr, Expression::Wildcard);
    }
}

#[test]
fn test_unexpected_token_kind_in_order_by() {
    let s = "SELECT a ORDER x;";
    let mut parser = Parser::new(s);
    let err = parser.stmt().unwrap_err();
    assert_eq!(
        err,
        SQLError {
            kind: SQLErrorKind::UnexpectedTokenKind {
                expected: TokenKind::Keyword(databas::token::Keyword::By),
                got: TokenKind::Identifier("x".to_string()),
            },
            pos: 15,
        }
    );
}

#[test]
fn test_unclosed_parenthesis() {
    let s = "(";
    let parser = Parser::new(s);
    let err = parser.expr().unwrap_err();
    assert_eq!(err, SQLError { kind: SQLErrorKind::UnclosedParenthesis, pos: 0 });
}

#[test]
fn test_statement_starting_with_bad_token() {
    let s = "1 + 1;";
    let mut parser = Parser::new(s);
    let err = parser.stmt().unwrap_err();
    assert_eq!(
        err,
        SQLError { kind: SQLErrorKind::Other(TokenKind::Number(NumberKind::Integer(1))), pos: 0 }
    );
}

#[test]
fn test_invalid_prefix_operator() {
    let s = "1";
    let mut parser = Parser::new(s);
    let err = parser
        .parse_unary_op(databas::token::Token { kind: TokenKind::Plus, offset: 0 })
        .unwrap_err();
    assert_eq!(
        err,
        SQLError { kind: SQLErrorKind::InvalidPrefixOperator { op: TokenKind::Plus }, pos: 0 }
    );
}

#[test]
fn expression_cannot_start_with_a_comma() {
    let parser = Parser::new(", 1");
    let err = parser.expr().unwrap_err();
    assert_eq!(err, SQLError { kind: SQLErrorKind::Other(TokenKind::Comma), pos: 0 });
}

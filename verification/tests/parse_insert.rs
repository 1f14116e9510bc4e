use databas::ast::{Expression, ExpressionList, IdentifierList, InsertQuery, Literal, Statement,
    Values};
use databas::parser::Parser;
use databas::token::NumberKind;

fn int_lit(value: i32) -> Expression {
    Expression::Literal(Literal::Number(NumberKind::Integer(value)))
}

fn float(text: &str) -> Expression {
    Expression::Literal(Literal::Number(NumberKind::Float(text.to_string())))
}

fn string(text: &str) -> Expression {
    Expression::Literal(Literal::String(text.to_string()))
}

#[test]
fn test_parse_insert_query() {
    let s = "INSERT INTO products (id, name, price) VALUES (123, 'Cake', 45.67), (789, 'Waffles', 10.00);";
    let mut parser = Parser::new(s);
    let got = parser.next_statement();
    let expected = InsertQuery {
        table: "products".to_string(),
        columns: IdentifierList(vec![
            "id".to_string(),
            "name".to_string(),
            "price".to_string(),
        ]),
        values: Values(vec![
            ExpressionList(vec![int_lit(123), string("Cake"), float("45.67")]),
            ExpressionList(vec![int_lit(789), string("Waffles"), float("10.00")]),
        ]),
    };
    assert_eq!(Some(Ok(Statement::Insert(expected))), got);
}

#[test]
fn insert_iteration_ends_after_the_last_statement() {
    let s = "INSERT INTO t (a) VALUES (1);";
    let mut parser = Parser::new(s);
    assert!(matches!(parser.next_statement(), Some(Ok(Statement::Insert(_)))));
    assert!(parser.next_statement().is_none());
}

use databas::lexer::Lexer;
use databas::sql_error::{SQLError, SQLErrorKind};
use databas::token::Keyword;
use databas::token::NumberKind::{Float, Integer};
use databas::token::{Token, TokenKind};

fn expect(lexer: &mut Lexer, kind: TokenKind, offset: usize) {
    let expected = Token { kind, offset };
    let got = lexer.next();
    assert_eq!(Some(Ok(expected)), got);
}

#[test]
fn test_comparison_symbols() {
    let s = " <  <=   >=  >";
    let mut lexer = Lexer::new(s);
    expect(&mut lexer, TokenKind::LessThan, 1);
    expect(&mut lexer, TokenKind::LessThanOrEqual, 4);
    expect(&mut lexer, TokenKind::GreaterThanOrEqual, 9);
    expect(&mut lexer, TokenKind::GreaterThan, 13);
}

#[test]
fn test_equality_symbols() {
    let s = "== != =";
    let mut lexer = Lexer::new(s);
    expect(&mut lexer, TokenKind::EqualsEquals, 0);
    expect(&mut lexer, TokenKind::NotEquals, 3);
    expect(&mut lexer, TokenKind::Equals, 6);
}

#[test]
fn test_skip_whitespace() {
    let s = "   (";
    let mut lexer = Lexer::new(s);
    expect(&mut lexer, TokenKind::LeftParen, 3);
    assert_eq!(lexer.next(), None);
    assert_eq!(lexer.position(), s.len());
}

#[test]
fn test_lex_number() {
    let s = "1234";
    let mut lexer = Lexer::new(s);
    expect(&mut lexer, TokenKind::Number(Integer(1234)), 0);
    assert_eq!(lexer.next(), None);
    assert_eq!(lexer.position(), s.len());
}

#[test]
fn test_lex_floating_point_number() {
    let s = "12.345";
    let mut lexer = Lexer::new(s);
    expect(&mut lexer, TokenKind::Number(Float("12.345".to_string())), 0);
    assert_eq!(lexer.next(), None);
    assert_eq!(lexer.position(), s.len());
}

#[test]
fn test_lex_number_between_whitespace() {
    let s = " 1234 ";
    let mut lexer = Lexer::new(s);
    expect(&mut lexer, TokenKind::Number(Integer(1234)), 1);
    assert_eq!(lexer.position(), s.len() - 1);
}

#[test]
fn test_double_quoted_string() {
    let s = "\"hello world\"";
    let mut lexer = Lexer::new(s);
    expect(&mut lexer, TokenKind::String("hello world".to_string()), 0);
}

#[test]
fn test_single_quoted_string() {
    let s = "'hello world'";
    let mut lexer = Lexer::new(s);
    expect(&mut lexer, TokenKind::String("hello world".to_string()), 0);
}

#[test]
fn test_keywords() {
    let s = "sEleCT * FrOm users whERe user_id < 100 aND NoT is_admin;";
    let mut lexer = Lexer::new(s);
    expect(&mut lexer, TokenKind::Keyword(Keyword::Select), 0);
    expect(&mut lexer, TokenKind::Asterisk, 7);
    expect(&mut lexer, TokenKind::Keyword(Keyword::From), 9);
    expect(&mut lexer, TokenKind::Identifier("users".to_string()), 14);
    expect(&mut lexer, TokenKind::Keyword(Keyword::Where), 20);
    expect(&mut lexer, TokenKind::Identifier("user_id".to_string()), 26);
    expect(&mut lexer, TokenKind::LessThan, 34);
    expect(&mut lexer, TokenKind::Number(Integer(100)), 36);
    expect(&mut lexer, TokenKind::Keyword(Keyword::And), 40);
    expect(&mut lexer, TokenKind::Keyword(Keyword::Not), 44);
    expect(&mut lexer, TokenKind::Identifier("is_admin".to_string()), 48);
    expect(&mut lexer, TokenKind::Semicolon, 56);

    let s = "INSERT INTO some_table VALUES (a, b, c);";
    let mut lexer = Lexer::new(s);
    expect(&mut lexer, TokenKind::Keyword(Keyword::Insert), 0);
    expect(&mut lexer, TokenKind::Keyword(Keyword::Into), 7);
    expect(&mut lexer, TokenKind::Identifier("some_table".to_string()), 12);
    expect(&mut lexer, TokenKind::Keyword(Keyword::Values), 23);
}

#[test]
fn test_expression() {
    let s = "12 + 23 * (36 / 8)";
    let mut lexer = Lexer::new(s);
    expect(&mut lexer, TokenKind::Number(Integer(12)), 0);
    expect(&mut lexer, TokenKind::Plus, 3);
    expect(&mut lexer, TokenKind::Number(Integer(23)), 5);
    expect(&mut lexer, TokenKind::Asterisk, 8);
    expect(&mut lexer, TokenKind::LeftParen, 10);
    expect(&mut lexer, TokenKind::Number(Integer(36)), 11);
    expect(&mut lexer, TokenKind::Slash, 14);
    expect(&mut lexer, TokenKind::Number(Integer(8)), 16);
}

#[test]
fn test_unterminated_string() {
    let s = "\"hello world";
    let mut lexer = Lexer::new(s);
    assert_eq!(
        lexer.next(),
        Some(Err(SQLError { kind: SQLErrorKind::UnterminatedString, pos: 0 }))
    );
}

#[test]
fn test_line_comment() {
    let s = "3 -- 4 5";
    let mut lexer = Lexer::new(s);
    expect(&mut lexer, TokenKind::Number(Integer(3)), 0);
    assert_eq!(lexer.next(), None);

    let s = "3 -- 4 5\n6";
    let mut lexer = Lexer::new(s);
    expect(&mut lexer, TokenKind::Number(Integer(3)), 0);
    expect(&mut lexer, TokenKind::Number(Integer(6)), 9);
}

#[test]
fn test_block_comment() {
    let s = "3 /* 4 5 */ 6";
    let mut lexer = Lexer::new(s);
    expect(&mut lexer, TokenKind::Number(Integer(3)), 0);
    expect(&mut lexer, TokenKind::Number(Integer(6)), 12);
}

#[test]
fn test_multiline_line_comment() {
    let s = "-- hello world\n-- another comment\n123 * 456";
    let mut lexer = Lexer::new(s);
    expect(&mut lexer, TokenKind::Number(Integer(123)), 34);
    expect(&mut lexer, TokenKind::Asterisk, 38);
    expect(&mut lexer, TokenKind::Number(Integer(456)), 40);
}

#[test]
fn test_logical_not() {
    let s = "NOT false";
    let mut lexer = Lexer::new(s);
    expect(&mut lexer, TokenKind::Keyword(Keyword::Not), 0);
    expect(&mut lexer, TokenKind::Keyword(Keyword::False), 4);
}

#[test]
fn test_non_ascii_identifier() {
    let s = "åäö";
    let mut lexer = Lexer::new(s);
    let got = lexer.next();
    let expected = Token { kind: TokenKind::Identifier("åäö".to_string()), offset: 0 };
    assert_eq!(Some(Ok(expected)), got);
}

#[test]
fn test_invalid_number() {
    let s = "1.2.3";
    let mut lexer = Lexer::new(s);
    assert_eq!(
        lexer.next(),
        Some(Err(SQLError { kind: SQLErrorKind::InvalidNumber, pos: 0 }))
    );
}

#[test]
fn test_bare_bang_is_invalid() {
    let s = "!";
    let mut lexer = Lexer::new(s);
    assert_eq!(
        lexer.next(),
        Some(Err(SQLError { kind: SQLErrorKind::InvalidCharacter { c: '!' }, pos: 1 }))
    );
}

#[test]
fn test_invalid_character() {
    let s = "?";
    let mut lexer = Lexer::new(s);
    assert_eq!(
        lexer.next(),
        Some(Err(SQLError { kind: SQLErrorKind::InvalidCharacter { c: '?' }, pos: 1 }))
    );
}

#[test]
fn test_peek_then_next_agree() {
    let s = "SELECT 1";
    let mut lexer = Lexer::new(s);
    let peeked = lexer.peek();
    let next = lexer.next();
    assert_eq!(peeked, next);
    assert_eq!(
        next,
        Some(Ok(Token { kind: TokenKind::Keyword(Keyword::Select), offset: 0 }))
    );
}

#[test]
fn test_unterminated_block_comment_consumes_input() {
    let s = "1 /* never closed";
    let mut lexer = Lexer::new(s);
    expect(&mut lexer, TokenKind::Number(Integer(1)), 0);
    assert_eq!(lexer.next(), None);
}

#[test]
fn test_integer_overflow_becomes_float() {
    let s = "123456789012";
    let mut lexer = Lexer::new(s);
    expect(&mut lexer, TokenKind::Number(Float("123456789012".to_string())), 0);
}

#[test]
fn test_unicode_whitespace_is_skipped() {
    let s = "\u{00A0}\u{2003}(";
    let mut lexer = Lexer::new(s);
    let got = lexer.next();
    assert!(matches!(
        got,
        Some(Ok(Token { kind: TokenKind::LeftParen, offset: _ }))
    ));
}

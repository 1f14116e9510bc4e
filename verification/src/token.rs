//! SQL tokens: keywords, punctuation, literals, each carrying its UTF-8
//! byte offset in the source.

use vstd::prelude::*;

verus! {

/// A numeric literal: a 32-bit integer when the digits parse as one, else a
/// float, carried as its source text. On the digit-and-dot literals the
/// lexer admits, a text is a well-formed float exactly when it holds at
/// most one dot; turning the text into a machine float is left to the
/// callers at the edge.
#[derive(Clone, Debug, PartialEq)]
pub enum NumberKind {
    /// A literal that parses as a signed 32-bit integer.
    Integer(i32),
    /// Any other well-formed numeric literal, as written in the source.
    Float(String),
}

/// A recognized aggregate function name.
#[derive(Clone, Copy, Debug, PartialEq, Eq, Structural)]
pub enum Aggregate {
    /// `COUNT`
    Count,
    /// `SUM`
    Sum,
    /// `AVG`
    Avg,
    /// `STDDEV`
    StdDev,
    /// `MIN`
    Min,
    /// `MAX`
    Max,
}

/// A recognized keyword; keywords are case-insensitive.
#[derive(Clone, Copy, Debug, PartialEq, Eq, Structural)]
pub enum Keyword {
    /// `SELECT`
    Select,
    /// `FROM`
    From,
    /// `WHERE`
    Where,
    /// `ORDER`
    Order,
    /// `BY`
    By,
    /// `ASC`
    Asc,
    /// `DESC`
    Desc,
    /// `TRUE`
    True,
    /// `FALSE`
    False,
    /// `AND`
    And,
    /// `OR`
    Or,
    /// `NOT`
    Not,
    /// `LIMIT`
    Limit,
    /// `OFFSET`
    Offset,
    /// `INSERT`
    Insert,
    /// `INTO`
    Into,
    /// `VALUES`
    Values,
    /// `CREATE`
    Create,
    /// `TABLE`
    Table,
    /// `INT`
    Int,
    /// `FLOAT`
    Float,
    /// `TEXT`
    Text,
    /// `PRIMARY`
    Primary,
    /// `KEY`
    Key,
    /// `NULLABLE`
    Nullable,
    /// An aggregate function name.
    Aggregate(Aggregate),
}

/// One lexical token kind.
#[derive(Clone, Debug, PartialEq)]
pub enum TokenKind {
    /// A quoted string literal, quotes stripped.
    String(String),
    /// An identifier.
    Identifier(String),
    /// A keyword.
    Keyword(Keyword),
    /// A numeric literal.
    Number(NumberKind),
    /// `(`
    LeftParen,
    /// `)`
    RightParen,
    /// `+`
    Plus,
    /// `-`
    Minus,
    /// `=`
    Equals,
    /// `!=`
    NotEquals,
    /// `==`
    EqualsEquals,
    /// `<`
    LessThan,
    /// `>`
    GreaterThan,
    /// `<=`
    LessThanOrEqual,
    /// `>=`
    GreaterThanOrEqual,
    /// `*`
    Asterisk,
    /// `,`
    Comma,
    /// `;`
    Semicolon,
    /// `/`
    Slash,
}

/// One token together with the UTF-8 byte offset where it starts.
#[derive(Clone, Debug, PartialEq)]
pub struct Token {
    /// The token's kind, with its payload.
    pub kind: TokenKind,
    /// Byte offset of the token's first character in the source.
    pub offset: usize,
}

} // verus!

//! Positioned SQL diagnostics: one error kind taxonomy for the lexer and
//! parser, each carrying the byte position it arose at.

use vstd::prelude::*;

use crate::token::TokenKind;

verus! {

/// A positioned SQL error.
#[derive(Clone, Debug, PartialEq)]
pub struct SQLError {
    /// What went wrong.
    pub kind: SQLErrorKind,
    /// Byte position in the source the error refers to.
    pub pos: usize,
}

impl SQLError {
    /// Builds an error from its kind and position.
    pub fn new(kind: SQLErrorKind, pos: usize) -> (r: SQLError)
        ensures
            r == (SQLError { kind, pos }),
    {
        SQLError { kind, pos }
    }
}

/// The closed set of SQL error kinds.
#[derive(Clone, Debug, PartialEq)]
pub enum SQLErrorKind {
    /// A list or statement ended where an expression was required.
    ExpectedExpression,
    /// A statement ran on where `,` or `;` was required.
    ExpectedCommaOrSemicolon,
    /// An identifier was required.
    ExpectedIdentifier { got: TokenKind },
    /// An integer literal was required.
    ExpectedInteger { got: TokenKind },
    /// A non-negative integer literal was required.
    ExpectedNonNegativeInteger { got: i32 },
    /// An unsupported character in the source.
    InvalidCharacter { c: char },
    /// A numeric literal that parses neither as integer nor float.
    InvalidNumber,
    /// A token that is no infix operator where one was required.
    InvalidOperator { op: TokenKind },
    /// A token that is no prefix operator where one was required.
    InvalidPrefixOperator { op: TokenKind },
    /// A token that names no column type where one was required.
    InvalidDataType { got: TokenKind },
    /// A token that fits nowhere in the grammar.
    Other(TokenKind),
    /// A `(` without its `)`.
    UnclosedParenthesis,
    /// The input ended inside a statement.
    UnexpectedEnd,
    /// A specific token was required and another came.
    UnexpectedTokenKind { expected: TokenKind, got: TokenKind },
    /// A statement without its terminating `;`.
    UnterminatedStatement,
    /// A string literal without its closing quote.
    UnterminatedString,
    /// The same constraint twice on one column.
    DuplicateConstraint { column: String, constraint: crate::ast::ColumnConstraint },
}

} // verus!

//! The typed statement trees the parser produces: expressions, `SELECT`,
//! `INSERT`, and `CREATE TABLE`.

use vstd::prelude::*;

use crate::sql_error::{SQLError, SQLErrorKind};
use crate::token::{Keyword, NumberKind, Token, TokenKind};

verus! {

/// A literal expression atom.
#[derive(Clone, Debug, PartialEq)]
pub enum Literal {
    /// A quoted string.
    String(String),
    /// A numeric literal.
    Number(NumberKind),
    /// `TRUE` or `FALSE`.
    Boolean(bool),
}

/// A prefix or infix operator.
#[derive(Clone, Copy, Debug, PartialEq, Eq, Structural)]
pub enum Op {
    /// `AND`
    And,
    /// `OR`
    Or,
    /// `!=`
    NotEquals,
    /// `==`
    EqualsEquals,
    /// `<`
    LessThan,
    /// `>`
    GreaterThan,
    /// `<=`
    LessThanOrEqual,
    /// `>=`
    GreaterThanOrEqual,
    /// `NOT`
    Not,
    /// `+`
    Add,
    /// `-`
    Sub,
    /// `*`
    Mul,
    /// `/`
    Div,
}

impl Op {
    /// The binding power of this operator in prefix position: `NOT` and `-`
    /// bind their operand at 7; nothing else is a prefix operator.
    pub fn prefix_binding_power(&self) -> (r: Option<u8>)
        ensures
            r == spec_prefix_binding_power(*self),
    {
        match self {
            Op::Not | Op::Sub => Some(7),
            _ => None,
        }
    }

    /// The left and right binding powers of this operator in infix
    /// position: `AND`/`OR` at (1, 2), comparisons at (3, 4), `+`/`-` at
    /// (5, 6), `*`/`/` at (6, 7); `NOT` is no infix operator.
    pub fn infix_binding_power(&self) -> (r: Option<(u8, u8)>)
        ensures
            r == spec_infix_binding_power(*self),
    {
        match self {
            Op::And | Op::Or => Some((1, 2)),
            Op::NotEquals | Op::EqualsEquals | Op::LessThan | Op::GreaterThan
                | Op::LessThanOrEqual | Op::GreaterThanOrEqual => Some((3, 4)),
            Op::Add | Op::Sub => Some((5, 6)),
            Op::Mul | Op::Div => Some((6, 7)),
            Op::Not => None,
        }
    }

    /// Maps a token onto the operator it spells, failing with
    /// `InvalidOperator` naming the token, at the token's offset, on any
    /// other token: exactly the [`spec_op_of_token`] table.
    pub fn try_from_token(token: &Token) -> (r: Result<Op, SQLError>)
        ensures
            match spec_op_of_token(token.kind) {
                Some(op) => r == Ok::<Op, SQLError>(op),
                None => r matches Err(e) && e.pos == token.offset && (e.kind matches
                    SQLErrorKind::InvalidOperator { op } && crate::lexer::spec_kind_eqv(
                    op,
                    token.kind,
                )),
            },
    {
        let op = match &token.kind {
            TokenKind::Keyword(Keyword::And) => Op::And,
            TokenKind::Keyword(Keyword::Or) => Op::Or,
            TokenKind::Keyword(Keyword::Not) => Op::Not,
            TokenKind::Plus => Op::Add,
            TokenKind::Minus => Op::Sub,
            TokenKind::Asterisk => Op::Mul,
            TokenKind::Slash => Op::Div,
            TokenKind::EqualsEquals => Op::EqualsEquals,
            TokenKind::NotEquals => Op::NotEquals,
            TokenKind::LessThan => Op::LessThan,
            TokenKind::GreaterThan => Op::GreaterThan,
            TokenKind::LessThanOrEqual => Op::LessThanOrEqual,
            TokenKind::GreaterThanOrEqual => Op::GreaterThanOrEqual,
            _ => {
                return Err(
                    SQLError {
                        kind: SQLErrorKind::InvalidOperator {
                            op: crate::lexer::copy_kind(&token.kind),
                        },
                        pos: token.offset,
                    },
                );
            },
        };
        Ok(op)
    }
}

/// The operator a token spells, if any: keywords `AND`/`OR`/`NOT` and the
/// arithmetic and comparison punctuation; a bare `=` is no operator.
pub open spec fn spec_op_of_token(kind: TokenKind) -> Option<Op> {
    match kind {
        TokenKind::Keyword(Keyword::And) => Some(Op::And),
        TokenKind::Keyword(Keyword::Or) => Some(Op::Or),
        TokenKind::Keyword(Keyword::Not) => Some(Op::Not),
        TokenKind::Plus => Some(Op::Add),
        TokenKind::Minus => Some(Op::Sub),
        TokenKind::Asterisk => Some(Op::Mul),
        TokenKind::Slash => Some(Op::Div),
        TokenKind::EqualsEquals => Some(Op::EqualsEquals),
        TokenKind::NotEquals => Some(Op::NotEquals),
        TokenKind::LessThan => Some(Op::LessThan),
        TokenKind::GreaterThan => Some(Op::GreaterThan),
        TokenKind::LessThanOrEqual => Some(Op::LessThanOrEqual),
        TokenKind::GreaterThanOrEqual => Some(Op::GreaterThanOrEqual),
        _ => None,
    }
}

/// The binding power of an operator in prefix position.
pub open spec fn spec_prefix_binding_power(op: Op) -> Option<u8> {
    match op {
        Op::Not | Op::Sub => Some(7u8),
        _ => None,
    }
}

/// The binding powers of an operator in infix position.
pub open spec fn spec_infix_binding_power(op: Op) -> Option<(u8, u8)> {
    match op {
        Op::And | Op::Or => Some((1u8, 2u8)),
        Op::NotEquals | Op::EqualsEquals | Op::LessThan | Op::GreaterThan | Op::LessThanOrEqual
            | Op::GreaterThanOrEqual => Some((3u8, 4u8)),
        Op::Add | Op::Sub => Some((5u8, 6u8)),
        Op::Mul | Op::Div => Some((6u8, 7u8)),
        Op::Not => None,
    }
}

/// A recognized aggregate function kind.
#[derive(Clone, Copy, Debug, PartialEq, Eq, Structural)]
pub enum AggregateFunctionKind {
    /// `SUM`
    Sum,
    /// `COUNT`
    Count,
    /// `AVG`
    Avg,
    /// `STDDEV`
    StdDev,
    /// `MIN`
    Min,
    /// `MAX`
    Max,
}

/// An aggregate function applied to an expression.
#[derive(Debug, PartialEq)]
pub struct AggregateFunction {
    /// Which aggregate is applied.
    pub kind: AggregateFunctionKind,
    /// The argument expression.
    pub expr: Box<Expression>,
}

/// An expression tree produced by precedence climbing.
#[derive(Debug, PartialEq)]
pub enum Expression {
    /// A literal atom.
    Literal(Literal),
    /// A column or table identifier.
    Identifier(String),
    /// A prefix operator applied to an operand.
    UnaryOp((Op, Box<Expression>)),
    /// An infix operator applied to two operands.
    BinaryOp((Box<Expression>, Op, Box<Expression>)),
    /// `*`
    Wildcard,
    /// An aggregate application.
    AggregateFunction(AggregateFunction),
}

/// The aggregate node kind that each aggregate keyword produces.
pub open spec fn spec_aggregate_kind(agg: crate::token::Aggregate) -> AggregateFunctionKind {
    match agg {
        crate::token::Aggregate::Count => AggregateFunctionKind::Count,
        crate::token::Aggregate::Sum => AggregateFunctionKind::Sum,
        crate::token::Aggregate::Avg => AggregateFunctionKind::Avg,
        crate::token::Aggregate::StdDev => AggregateFunctionKind::StdDev,
        crate::token::Aggregate::Min => AggregateFunctionKind::Min,
        crate::token::Aggregate::Max => AggregateFunctionKind::Max,
    }
}

/// A comma-separated list of expressions.
#[derive(Debug, PartialEq)]
pub struct ExpressionList(pub Vec<Expression>);

/// A comma-separated list of identifiers.
#[derive(Clone, Debug, PartialEq)]
pub struct IdentifierList(pub Vec<String>);

/// Sort direction of an `ORDER BY` clause.
#[derive(Clone, Copy, Debug, PartialEq, Eq, Structural)]
pub enum Ordering {
    /// `ASC`
    Ascending,
    /// `DESC`
    Descending,
}

/// An `ORDER BY` clause: its terms and optional direction.
#[derive(Debug, PartialEq)]
pub struct OrderBy {
    /// The expressions ordered by.
    pub terms: ExpressionList,
    /// The direction, when `ASC` or `DESC` followed.
    pub order: Option<Ordering>,
}

/// A parsed `SELECT` statement.
#[derive(Debug, PartialEq)]
pub struct SelectQuery {
    /// The selected expressions.
    pub columns: ExpressionList,
    /// The `FROM` table, when present.
    pub table: Option<String>,
    /// The `WHERE` expression, when present.
    pub where_clause: Option<Expression>,
    /// The `ORDER BY` clause, when present.
    pub order_by: Option<OrderBy>,
    /// The `LIMIT` count, when present.
    pub limit: Option<u32>,
    /// The `OFFSET` count, when present.
    pub offset: Option<u32>,
}

/// The value rows of an `INSERT` statement.
#[derive(Debug, PartialEq)]
pub struct Values(pub Vec<ExpressionList>);

/// A parsed `INSERT` statement.
#[derive(Debug, PartialEq)]
pub struct InsertQuery {
    /// The target table.
    pub table: String,
    /// The named columns.
    pub columns: IdentifierList,
    /// The inserted value rows.
    pub values: Values,
}

/// A column type in a `CREATE TABLE` statement.
#[derive(Clone, Copy, Debug, PartialEq, Eq, Structural)]
pub enum ColumnType {
    /// `INT`
    Int,
    /// `FLOAT`
    Float,
    /// `TEXT`
    Text,
}

/// A column constraint in a `CREATE TABLE` statement.
#[derive(Clone, Copy, Debug, PartialEq, Eq, Structural)]
pub enum ColumnConstraint {
    /// `PRIMARY KEY`
    PrimaryKey,
    /// `NULLABLE`
    Nullable,
}

/// One column definition of a `CREATE TABLE` statement.
#[derive(Clone, Debug, PartialEq)]
pub struct Column {
    /// The column name.
    pub name: String,
    /// The column type.
    pub column_type: ColumnType,
    /// The constraints, in source order, each at most once.
    pub constraints: Vec<ColumnConstraint>,
}

/// A parsed `CREATE TABLE` statement.
#[derive(Clone, Debug, PartialEq)]
pub struct CreateTableQuery {
    /// The new table's name.
    pub table_name: String,
    /// Its column definitions.
    pub columns: Vec<Column>,
}

/// A parsed SQL statement.
#[derive(Debug, PartialEq)]
pub enum Statement {
    /// A `SELECT` statement.
    Select(SelectQuery),
    /// An `INSERT` statement.
    Insert(InsertQuery),
    /// A `CREATE TABLE` statement.
    CreateTable(CreateTableQuery),
}

} // verus!

//! The SQL parser: precedence climbing over the lexer's token stream,
//! producing `SELECT`, `INSERT` and `CREATE TABLE` statement trees.
//!
//! Every parsing function carries a relational contract that pins its
//! result -- the tree on success, the error kind and position on failure --
//! against the token stream, by chaining one-token reads ([`spec_read`])
//! from the entry state to the final state.

use vstd::prelude::*;

use crate::ast::{AggregateFunction, AggregateFunctionKind, Column, ColumnConstraint, ColumnType,
    CreateTableQuery, Expression, ExpressionList, IdentifierList, InsertQuery, Literal, Op,
    OrderBy, Ordering, SelectQuery, Statement, Values};
use crate::lexer::{Lexer, LexState, spec_read, spec_strip, st_keep, st_rem};
use crate::sql_error::{SQLError, SQLErrorKind};
use crate::token::{Aggregate, Keyword, Token, TokenKind};

verus! {

/// Structural equality of two token kinds, payloads included: exactly the
/// view-level equivalence [`crate::lexer::spec_kind_eqv`].
fn token_kind_eq(a: &TokenKind, b: &TokenKind) -> (r: bool)
    ensures
        r == crate::lexer::spec_kind_eqv(*a, *b),
{
    match (a, b) {
        (TokenKind::String(x), TokenKind::String(y)) => *x == *y,
        (TokenKind::Identifier(x), TokenKind::Identifier(y)) => *x == *y,
        (TokenKind::Keyword(x), TokenKind::Keyword(y)) => *x == *y,
        (
            TokenKind::Number(crate::token::NumberKind::Integer(x)),
            TokenKind::Number(crate::token::NumberKind::Integer(y)),
        ) => *x == *y,
        (
            TokenKind::Number(crate::token::NumberKind::Float(x)),
            TokenKind::Number(crate::token::NumberKind::Float(y)),
        ) => *x == *y,
        (TokenKind::LeftParen, TokenKind::LeftParen) => true,
        (TokenKind::RightParen, TokenKind::RightParen) => true,
        (TokenKind::Plus, TokenKind::Plus) => true,
        (TokenKind::Minus, TokenKind::Minus) => true,
        (TokenKind::Equals, TokenKind::Equals) => true,
        (TokenKind::NotEquals, TokenKind::NotEquals) => true,
        (TokenKind::EqualsEquals, TokenKind::EqualsEquals) => true,
        (TokenKind::LessThan, TokenKind::LessThan) => true,
        (TokenKind::GreaterThan, TokenKind::GreaterThan) => true,
        (TokenKind::LessThanOrEqual, TokenKind::LessThanOrEqual) => true,
        (TokenKind::GreaterThanOrEqual, TokenKind::GreaterThanOrEqual) => true,
        (TokenKind::Asterisk, TokenKind::Asterisk) => true,
        (TokenKind::Comma, TokenKind::Comma) => true,
        (TokenKind::Semicolon, TokenKind::Semicolon) => true,
        (TokenKind::Slash, TokenKind::Slash) => true,
        _ => false,
    }
}

/// Kind equivalence is reflexive: every token kind is equivalent to
/// itself.
pub proof fn lemma_kind_eqv_refl(k: TokenKind)
    ensures
        crate::lexer::spec_kind_eqv(k, k),
{
    match k {
        TokenKind::String(_) => {},
        TokenKind::Identifier(_) => {},
        _ => {},
    }
}

/// Kind equivalence is transitive.
pub proof fn lemma_kind_eqv_trans(a: TokenKind, b: TokenKind, c: TokenKind)
    requires
        crate::lexer::spec_kind_eqv(a, b),
        crate::lexer::spec_kind_eqv(b, c),
    ensures
        crate::lexer::spec_kind_eqv(a, c),
{
}

/// Equivalent kinds agree on everything the parser branches on: the fold
/// stop set, the operator table, keyword identity, and the list comma.
pub proof fn lemma_kind_eqv_props(a: TokenKind, b: TokenKind)
    requires
        crate::lexer::spec_kind_eqv(a, b),
    ensures
        spec_stop_kind(a) == spec_stop_kind(b),
        crate::ast::spec_op_of_token(a) == crate::ast::spec_op_of_token(b),
        a matches TokenKind::Keyword(kw) ==> b == TokenKind::Keyword(kw),
        b matches TokenKind::Keyword(kw) ==> a == TokenKind::Keyword(kw),
        (a is Comma) == (b is Comma),
{
}

/// What parsing an identifier out of the token `t` yields: the token's
/// text when it is an identifier, else `ExpectedIdentifier` naming the
/// token, at the byte position after it.
pub open spec fn spec_identifier_outcome(
    t: Token,
    r: Result<String, SQLError>,
    pos_after: int,
) -> bool {
    match t.kind {
        TokenKind::Identifier(text) => r matches Ok(id) && id@ == text@,
        _ => match r {
            Err(e) => e.pos == pos_after && match e.kind {
                SQLErrorKind::ExpectedIdentifier { got } => crate::lexer::spec_kind_eqv(
                    got,
                    t.kind,
                ),
                _ => false,
            },
            Ok(_) => false,
        },
    }
}

/// What expecting `expected` of the token `t` yields: success exactly when
/// the kinds are equivalent, else `UnexpectedTokenKind` at the token's
/// offset naming both kinds.
pub open spec fn spec_expect_outcome(t: Token, expected: TokenKind, r: Result<(), SQLError>) -> bool {
    if crate::lexer::spec_kind_eqv(t.kind, expected) {
        r is Ok
    } else {
        match r {
            Err(e) => e.pos == t.offset && match e.kind {
                SQLErrorKind::UnexpectedTokenKind { expected: e2, got } => e2 == expected
                    && crate::lexer::spec_kind_eqv(got, t.kind),
                _ => false,
            },
            Ok(_) => false,
        }
    }
}

/// One token is demanded and must be of the expected kind: the read fixes
/// the token, [`spec_expect_outcome`] fixes the result, exhausted input is
/// `UnexpectedEnd` at the skip position, and a lexer error passes through.
pub open spec fn sp_expect(
    src: Seq<char>,
    a: LexState,
    expected: TokenKind,
    b: LexState,
    r: Result<(), SQLError>,
) -> bool {
    exists|m: LexState, t: Option<Result<Token, SQLError>>|
        #[trigger] spec_read(src, a, m, t) && b == m && match t {
            None => r matches Err(e) && e.kind is UnexpectedEnd && e.pos == m.pos,
            Some(Err(le)) => r == Err::<(), SQLError>(le),
            Some(Ok(tok)) => spec_expect_outcome(tok, expected, r),
        }
}

/// One token is demanded and must be an identifier: the read fixes the
/// token, [`spec_identifier_outcome`] fixes the result.
pub open spec fn sp_ident(
    src: Seq<char>,
    a: LexState,
    b: LexState,
    r: Result<String, SQLError>,
) -> bool {
    exists|m: LexState, t: Option<Result<Token, SQLError>>|
        #[trigger] spec_read(src, a, m, t) && b == m && match t {
            None => r matches Err(e) && e.kind is UnexpectedEnd && e.pos == m.pos,
            Some(Err(le)) => r == Err::<String, SQLError>(le),
            Some(Ok(tok)) => spec_identifier_outcome(tok, r, m.pos),
        }
}

/// What parsing a non-negative 32-bit integer reads and returns: an
/// integer token gives its value (a negative payload, which the lexer
/// never produces, gives `None`); a `-` reads one more token and fails
/// with `ExpectedNonNegativeInteger` carrying the negated literal when an
/// integer follows, with `Other(-)` otherwise, both at the `-`; any other
/// token fails as `ExpectedInteger` naming it, at its offset.
pub open spec fn sp_nonneg(
    src: Seq<char>,
    a: LexState,
    b: LexState,
    r: Result<Option<u32>, SQLError>,
) -> bool {
    exists|m: LexState, t: Option<Result<Token, SQLError>>|
        #[trigger] spec_read(src, a, m, t) && match t {
            None => b == m && (r matches Err(e) && e.kind is UnexpectedEnd && e.pos == m.pos),
            Some(Err(le)) => b == m && r == Err::<Option<u32>, SQLError>(le),
            Some(Ok(tok)) => match tok.kind {
                TokenKind::Number(crate::token::NumberKind::Integer(num)) => b == m && (if num
                    >= 0 {
                    r == Ok::<Option<u32>, SQLError>(Some(num as u32))
                } else {
                    r == Ok::<Option<u32>, SQLError>(None)
                }),
                TokenKind::Minus => exists|m2: LexState, t2: Option<Result<Token, SQLError>>|
                    #[trigger] spec_read(src, m, m2, t2) && b == m2 && match t2 {
                        Some(Ok(tok2)) => match tok2.kind {
                            TokenKind::Number(crate::token::NumberKind::Integer(num)) => r matches
                                Err(e) && e.pos == tok.offset && (e.kind matches
                                SQLErrorKind::ExpectedNonNegativeInteger { got } && got as int == (
                                if num as int > i32::MIN as int + 1 {
                                    -(num as int)
                                } else {
                                    i32::MIN as int + 1
                                })),
                            _ => r matches Err(e) && e.pos == tok.offset && e.kind
                                == SQLErrorKind::Other(TokenKind::Minus),
                        },
                        _ => r matches Err(e) && e.pos == tok.offset && e.kind
                            == SQLErrorKind::Other(TokenKind::Minus),
                    },
                _ => b == m && (r matches Err(e) && e.pos == tok.offset && (e.kind matches
                    SQLErrorKind::ExpectedInteger { got } && got == tok.kind)),
            },
        }
}

/// A trigger anchor for the existential steps of the mutually recursive
/// expression predicates: always true. Each expression-parsing function
/// ensures it of its final state and result, which hands every caller the
/// instance its contract's existential is keyed on.
pub open spec fn sp_wit<A, B>(a: A, b: B) -> bool {
    true
}

/// The tokens on which the expression fold stops, leaving them unconsumed:
/// list, group, and statement boundaries, and the clause keywords.
pub open spec fn spec_stop_kind(k: TokenKind) -> bool {
    match k {
        TokenKind::Comma | TokenKind::RightParen | TokenKind::Semicolon => true,
        TokenKind::Keyword(Keyword::From) | TokenKind::Keyword(Keyword::Where)
            | TokenKind::Keyword(Keyword::Order) | TokenKind::Keyword(Keyword::Desc)
            | TokenKind::Keyword(Keyword::Asc) | TokenKind::Keyword(Keyword::Limit)
            | TokenKind::Keyword(Keyword::Offset) => true,
        _ => false,
    }
}

/// One full precedence-climbing parse at binding power `min_bp`: one token
/// is read, [`sp_atom`] dispatches on it; exhausted input is
/// `UnexpectedEnd`, a lexer error passes through.
pub open spec fn sp_expr(
    src: Seq<char>,
    a: LexState,
    min_bp: u8,
    b: LexState,
    r: Result<Expression, SQLError>,
) -> bool
    decreases st_rem(src, a), 0int,
{
    exists|m: LexState, t: Option<Result<Token, SQLError>>|
        #[trigger] spec_read(src, a, m, t) && match t {
            None => b == m && (r matches Err(e) && e.kind is UnexpectedEnd && e.pos == m.pos),
            Some(Err(le)) => b == m && r == Err::<Expression, SQLError>(le),
            Some(Ok(tok)) => 0 <= st_rem(src, m) < st_rem(src, a) && sp_atom(
                src,
                m,
                tok,
                min_bp,
                b,
                r,
            ),
        }
}

/// How the token `tok` opens an expression, the cursor standing just past
/// it at `m`: an atom starts the fold with its literal; a parenthesis
/// parses a full inner expression (any failure inside becoming
/// `UnclosedParenthesis` at the parenthesis) and demands the closing one;
/// `-` and `NOT` parse a prefix application; an aggregate keyword parses
/// its parenthesized argument; anything else is refused as `Other` at the
/// token's offset.
pub open spec fn sp_atom(
    src: Seq<char>,
    m: LexState,
    tok: Token,
    min_bp: u8,
    b: LexState,
    r: Result<Expression, SQLError>,
) -> bool
    decreases st_rem(src, m), 3int,
{
    match tok.kind {
        TokenKind::String(lit) => sp_fold(
            src,
            m,
            Expression::Literal(Literal::String(lit)),
            min_bp,
            b,
            r,
        ),
        TokenKind::Number(num) => sp_fold(
            src,
            m,
            Expression::Literal(Literal::Number(num)),
            min_bp,
            b,
            r,
        ),
        TokenKind::Keyword(Keyword::True) => sp_fold(
            src,
            m,
            Expression::Literal(Literal::Boolean(true)),
            min_bp,
            b,
            r,
        ),
        TokenKind::Keyword(Keyword::False) => sp_fold(
            src,
            m,
            Expression::Literal(Literal::Boolean(false)),
            min_bp,
            b,
            r,
        ),
        TokenKind::Identifier(id) => sp_fold(src, m, Expression::Identifier(id), min_bp, b, r),
        TokenKind::Asterisk => sp_fold(src, m, Expression::Wildcard, min_bp, b, r),
        TokenKind::LeftParen => exists|s2: LexState, r2: Result<Expression, SQLError>|
            #[trigger] sp_wit(s2, r2) && 0 <= st_rem(src, s2) <= st_rem(src, m) && sp_expr(
                src,
                m,
                0,
                s2,
                r2,
            ) && match r2 {
                Err(_) => b == s2 && (r matches Err(e) && e.kind is UnclosedParenthesis && e.pos
                    == tok.offset),
                Ok(inner) => exists|s3: LexState, r3: Result<(), SQLError>|
                    #[trigger] sp_expect(src, s2, TokenKind::RightParen, s3, r3) && match r3 {
                        Err(e) => b == s3 && r == Err::<Expression, SQLError>(e),
                        Ok(_) => 0 <= st_rem(src, s3) <= st_rem(src, m) && sp_fold(
                            src,
                            s3,
                            inner,
                            min_bp,
                            b,
                            r,
                        ),
                    },
            },
        TokenKind::Minus => exists|s2: LexState, r2: Result<Expression, SQLError>|
            #[trigger] sp_wit(s2, r2) && sp_prefix(src, m, Op::Sub, s2, r2) && match r2 {
                Err(e) => b == s2 && r == Err::<Expression, SQLError>(e),
                Ok(u) => 0 <= st_rem(src, s2) <= st_rem(src, m) && sp_fold(
                    src,
                    s2,
                    u,
                    min_bp,
                    b,
                    r,
                ),
            },
        TokenKind::Keyword(Keyword::Not) => exists|s2: LexState, r2: Result<Expression, SQLError>|
            #[trigger] sp_wit(s2, r2) && sp_prefix(src, m, Op::Not, s2, r2) && match r2 {
                Err(e) => b == s2 && r == Err::<Expression, SQLError>(e),
                Ok(u) => 0 <= st_rem(src, s2) <= st_rem(src, m) && sp_fold(
                    src,
                    s2,
                    u,
                    min_bp,
                    b,
                    r,
                ),
            },
        TokenKind::Keyword(Keyword::Aggregate(agg)) => exists|
            s2: LexState,
            r2: Result<Expression, SQLError>,
        |
            #[trigger] sp_wit(s2, r2) && sp_agg(src, m, agg, s2, r2) && match r2 {
                Err(e) => b == s2 && r == Err::<Expression, SQLError>(e),
                Ok(u) => 0 <= st_rem(src, s2) <= st_rem(src, m) && sp_fold(
                    src,
                    s2,
                    u,
                    min_bp,
                    b,
                    r,
                ),
            },
        _ => b == m && (r matches Err(e) && e.pos == tok.offset && e.kind == SQLErrorKind::Other(
            tok.kind,
        )),
    }
}

/// A prefix application of `op`: the operand is parsed at the operator's
/// prefix binding power, and the result is the unary node over it.
pub open spec fn sp_prefix(
    src: Seq<char>,
    a: LexState,
    op: Op,
    b: LexState,
    r: Result<Expression, SQLError>,
) -> bool
    decreases st_rem(src, a), 2int,
{
    exists|s2: LexState, r2: Result<Expression, SQLError>|
        #[trigger] sp_wit(s2, r2) && sp_expr(
            src,
            a,
            crate::ast::spec_prefix_binding_power(op).unwrap(),
            s2,
            r2,
        ) && b == s2 && match r2 {
            Err(e) => r == Err::<Expression, SQLError>(e),
            Ok(rhs) => r matches Ok(e) && (e matches Expression::UnaryOp(p) && p.0 == op && *p.1
                == rhs),
        }
}

/// An aggregate application, the keyword already consumed: a parenthesized
/// argument expression, yielding the aggregate node of the keyword's kind
/// over it.
pub open spec fn sp_agg(
    src: Seq<char>,
    a: LexState,
    agg: Aggregate,
    b: LexState,
    r: Result<Expression, SQLError>,
) -> bool
    decreases st_rem(src, a), 2int,
{
    exists|s1: LexState, r1: Result<(), SQLError>|
        #[trigger] sp_expect(src, a, TokenKind::LeftParen, s1, r1) && match r1 {
            Err(e) => b == s1 && r == Err::<Expression, SQLError>(e),
            Ok(_) => 0 <= st_rem(src, s1) <= st_rem(src, a) && exists|
                s2: LexState,
                r2: Result<Expression, SQLError>,
            |
                #[trigger] sp_wit(s2, r2) && sp_expr(src, s1, 0, s2, r2) && match r2 {
                    Err(e) => b == s2 && r == Err::<Expression, SQLError>(e),
                    Ok(inner) => exists|s3: LexState, r3: Result<(), SQLError>|
                        #[trigger] sp_expect(src, s2, TokenKind::RightParen, s3, r3) && b == s3
                            && match r3 {
                            Err(e) => r == Err::<Expression, SQLError>(e),
                            Ok(_) => r matches Ok(e) && (e matches Expression::AggregateFunction(f)
                                && f.kind == crate::ast::spec_aggregate_kind(agg) && *f.expr
                                == inner),
                        },
                },
        }
}

/// The infix fold around a finished left operand `lhs`: one lookahead is
/// read. End of input, a buffered lexer error, a stop token, or an
/// operator binding weaker than `min_bp` ends the fold with `Ok(lhs)`, the
/// lookahead left unconsumed. A non-operator is refused as
/// `InvalidOperator` naming it, at its offset, likewise unconsumed. An
/// operator binding at least `min_bp` is consumed, its right operand is
/// parsed at the operator's right binding power, and the fold continues
/// around the binary node -- so equal-precedence chains associate left and
/// the tree conforms to the binding-power table.
pub open spec fn sp_fold(
    src: Seq<char>,
    s: LexState,
    lhs: Expression,
    min_bp: u8,
    b: LexState,
    r: Result<Expression, SQLError>,
) -> bool
    decreases st_rem(src, s), 1int,
{
    exists|m: LexState, t: Option<Result<Token, SQLError>>|
        #[trigger] spec_read(src, s, m, t) && match t {
            None => b == st_keep(m, t) && r == Ok::<Expression, SQLError>(lhs),
            Some(Err(_)) => b == st_keep(m, t) && r == Ok::<Expression, SQLError>(lhs),
            Some(Ok(tok)) => if spec_stop_kind(tok.kind) {
                b == st_keep(m, t) && r == Ok::<Expression, SQLError>(lhs)
            } else {
                match crate::ast::spec_op_of_token(tok.kind) {
                    None => b == st_keep(m, t) && (r matches Err(e) && e.pos == tok.offset && (
                    e.kind matches SQLErrorKind::InvalidOperator { op }
                        && crate::lexer::spec_kind_eqv(op, tok.kind))),
                    Some(op) => match crate::ast::spec_infix_binding_power(op) {
                        None => b == st_keep(m, t) && (r matches Err(e) && e.pos == tok.offset && (
                        e.kind matches SQLErrorKind::InvalidOperator { op: k }
                            && crate::lexer::spec_kind_eqv(k, tok.kind))),
                        Some(bp) => if bp.0 < min_bp {
                            b == st_keep(m, t) && r == Ok::<Expression, SQLError>(lhs)
                        } else {
                            0 <= st_rem(src, m) < st_rem(src, s) && (exists|
                                s3: LexState,
                                rr: Result<Expression, SQLError>,
                            |
                                #[trigger] sp_wit(s3, rr) && sp_expr(src, m, bp.1, s3, rr) && (
                                match rr {
                                    Err(e) => b == s3 && r == Err::<Expression, SQLError>(e),
                                    Ok(rhs) => 0 <= st_rem(src, s3) < st_rem(src, s) && (exists|
                                        lhs2: Expression,
                                    |
                                        #[trigger] sp_wit(lhs2, r) && (lhs2 matches
                                            Expression::BinaryOp(p) && *p.0 == lhs && p.1 == op
                                            && *p.2 == rhs) && sp_fold(
                                            src,
                                            s3,
                                            lhs2,
                                            min_bp,
                                            b,
                                            r,
                                        )),
                                }))
                        },
                    },
                }
            },
        }
}

/// The tail of a comma-separated expression list, `acc` already parsed: a
/// comma consumes one more expression and recurses; anything else -- left
/// unconsumed -- closes the list over exactly `acc`.
pub open spec fn sp_eli_more(
    src: Seq<char>,
    s: LexState,
    acc: Seq<Expression>,
    b: LexState,
    r: Result<ExpressionList, SQLError>,
) -> bool
    decreases st_rem(src, s),
{
    exists|m: LexState, t: Option<Result<Token, SQLError>>|
        #[trigger] spec_read(src, s, m, t) && match t {
            Some(Ok(tok)) => if tok.kind is Comma {
                0 <= st_rem(src, m) < st_rem(src, s) && exists|
                    s2: LexState,
                    r2: Result<Expression, SQLError>,
                |
                    #[trigger] sp_expr(src, m, 0, s2, r2) && match r2 {
                        Err(e) => b == s2 && r == Err::<ExpressionList, SQLError>(e),
                        Ok(item) => 0 <= st_rem(src, s2) < st_rem(src, s) && sp_eli_more(
                            src,
                            s2,
                            acc.push(item),
                            b,
                            r,
                        ),
                    }
            } else {
                b == st_keep(m, t) && (r matches Ok(l) && l.0@ == acc)
            },
            _ => b == st_keep(m, t) && (r matches Ok(l) && l.0@ == acc),
        }
}

/// A comma-separated expression list: a first expression, then
/// [`sp_eli_more`] from the singleton.
pub open spec fn sp_eli(
    src: Seq<char>,
    a: LexState,
    b: LexState,
    r: Result<ExpressionList, SQLError>,
) -> bool {
    exists|s1: LexState, r1: Result<Expression, SQLError>|
        #[trigger] sp_expr(src, a, 0, s1, r1) && match r1 {
            Err(e) => b == s1 && r == Err::<ExpressionList, SQLError>(e),
            Ok(first) => sp_eli_more(src, s1, Seq::<Expression>::empty().push(first), b, r),
        }
}

/// The tail of a comma-separated identifier list, `acc` already parsed.
pub open spec fn sp_idl_more(
    src: Seq<char>,
    s: LexState,
    acc: Seq<String>,
    b: LexState,
    r: Result<IdentifierList, SQLError>,
) -> bool
    decreases st_rem(src, s),
{
    exists|m: LexState, t: Option<Result<Token, SQLError>>|
        #[trigger] spec_read(src, s, m, t) && match t {
            Some(Ok(tok)) => if tok.kind is Comma {
                0 <= st_rem(src, m) < st_rem(src, s) && exists|
                    s2: LexState,
                    r2: Result<String, SQLError>,
                |
                    #[trigger] sp_ident(src, m, s2, r2) && match r2 {
                        Err(e) => b == s2 && r == Err::<IdentifierList, SQLError>(e),
                        Ok(item) => 0 <= st_rem(src, s2) < st_rem(src, s) && sp_idl_more(
                            src,
                            s2,
                            acc.push(item),
                            b,
                            r,
                        ),
                    }
            } else {
                b == st_keep(m, t) && (r matches Ok(l) && l.0@ == acc)
            },
            _ => b == st_keep(m, t) && (r matches Ok(l) && l.0@ == acc),
        }
}

/// A comma-separated identifier list: a first identifier, then
/// [`sp_idl_more`] from the singleton.
pub open spec fn sp_idl(
    src: Seq<char>,
    a: LexState,
    b: LexState,
    r: Result<IdentifierList, SQLError>,
) -> bool {
    exists|s1: LexState, r1: Result<String, SQLError>|
        #[trigger] sp_ident(src, a, s1, r1) && match r1 {
            Err(e) => b == s1 && r == Err::<IdentifierList, SQLError>(e),
            Ok(first) => sp_idl_more(src, s1, Seq::<String>::empty().push(first), b, r),
        }
}

/// An optional clause introduced by the keyword `kw` and carrying an
/// identifier: present -- the keyword consumed, the identifier demanded --
/// exactly when `kw` is the next token, which is otherwise left unconsumed.
pub open spec fn sp_opt_ident(
    src: Seq<char>,
    a: LexState,
    kw: Keyword,
    b: LexState,
    r: Result<Option<String>, SQLError>,
) -> bool {
    exists|m: LexState, t: Option<Result<Token, SQLError>>|
        #[trigger] spec_read(src, a, m, t) && match t {
            Some(Ok(tok)) => if tok.kind == TokenKind::Keyword(kw) {
                exists|s2: LexState, r2: Result<String, SQLError>|
                    #[trigger] sp_ident(src, m, s2, r2) && b == s2 && match r2 {
                        Err(e) => r == Err::<Option<String>, SQLError>(e),
                        Ok(id) => r == Ok::<Option<String>, SQLError>(Some(id)),
                    }
            } else {
                b == st_keep(m, t) && r == Ok::<Option<String>, SQLError>(None)
            },
            _ => b == st_keep(m, t) && r == Ok::<Option<String>, SQLError>(None),
        }
}

/// An optional clause introduced by the keyword `kw` and carrying a
/// full expression.
pub open spec fn sp_opt_expr(
    src: Seq<char>,
    a: LexState,
    kw: Keyword,
    b: LexState,
    r: Result<Option<Expression>, SQLError>,
) -> bool {
    exists|m: LexState, t: Option<Result<Token, SQLError>>|
        #[trigger] spec_read(src, a, m, t) && match t {
            Some(Ok(tok)) => if tok.kind == TokenKind::Keyword(kw) {
                exists|s2: LexState, r2: Result<Expression, SQLError>|
                    #[trigger] sp_expr(src, m, 0, s2, r2) && b == s2 && match r2 {
                        Err(e) => r == Err::<Option<Expression>, SQLError>(e),
                        Ok(e) => r == Ok::<Option<Expression>, SQLError>(Some(e)),
                    }
            } else {
                b == st_keep(m, t) && r == Ok::<Option<Expression>, SQLError>(None)
            },
            _ => b == st_keep(m, t) && r == Ok::<Option<Expression>, SQLError>(None),
        }
}

/// An optional clause introduced by the keyword `kw` and carrying a
/// non-negative integer.
pub open spec fn sp_opt_nonneg(
    src: Seq<char>,
    a: LexState,
    kw: Keyword,
    b: LexState,
    r: Result<Option<u32>, SQLError>,
) -> bool {
    exists|m: LexState, t: Option<Result<Token, SQLError>>|
        #[trigger] spec_read(src, a, m, t) && match t {
            Some(Ok(tok)) => if tok.kind == TokenKind::Keyword(kw) {
                exists|s2: LexState, r2: Result<Option<u32>, SQLError>|
                    #[trigger] sp_nonneg(src, m, s2, r2) && b == s2 && r == r2
            } else {
                b == st_keep(m, t) && r == Ok::<Option<u32>, SQLError>(None)
            },
            _ => b == st_keep(m, t) && r == Ok::<Option<u32>, SQLError>(None),
        }
}

/// An optional `ORDER BY` clause: absent -- the lookahead unconsumed --
/// exactly when the next token is not `ORDER`; present, `BY` is demanded,
/// the terms are an expression list, and a trailing `ASC` or `DESC` is
/// consumed into the direction, which is otherwise `None`.
pub open spec fn sp_order_by(
    src: Seq<char>,
    a: LexState,
    b: LexState,
    r: Result<Option<OrderBy>, SQLError>,
) -> bool {
    exists|m: LexState, t: Option<Result<Token, SQLError>>|
        #[trigger] spec_read(src, a, m, t) && match t {
            Some(Ok(tok)) => if tok.kind == TokenKind::Keyword(Keyword::Order) {
                exists|s2: LexState, r2: Result<(), SQLError>|
                    #[trigger] sp_expect(src, m, TokenKind::Keyword(Keyword::By), s2, r2)
                        && match r2 {
                        Err(e) => b == s2 && r == Err::<Option<OrderBy>, SQLError>(e),
                        Ok(_) => exists|s3: LexState, r3: Result<ExpressionList, SQLError>|
                            #[trigger] sp_eli(src, s2, s3, r3) && match r3 {
                                Err(e) => b == s3 && r == Err::<Option<OrderBy>, SQLError>(e),
                                Ok(terms) => exists|
                                    m4: LexState,
                                    t4: Option<Result<Token, SQLError>>,
                                |
                                    #[trigger] spec_read(src, s3, m4, t4) && match t4 {
                                        Some(Ok(tok4)) => if tok4.kind == TokenKind::Keyword(
                                            Keyword::Asc,
                                        ) {
                                            b == m4 && r == Ok::<Option<OrderBy>, SQLError>(
                                                Some(
                                                    OrderBy {
                                                        terms,
                                                        order: Some(Ordering::Ascending),
                                                    },
                                                ),
                                            )
                                        } else if tok4.kind == TokenKind::Keyword(Keyword::Desc) {
                                            b == m4 && r == Ok::<Option<OrderBy>, SQLError>(
                                                Some(
                                                    OrderBy {
                                                        terms,
                                                        order: Some(Ordering::Descending),
                                                    },
                                                ),
                                            )
                                        } else {
                                            b == st_keep(m4, t4) && r == Ok::<
                                                Option<OrderBy>,
                                                SQLError,
                                            >(Some(OrderBy { terms, order: None }))
                                        },
                                        _ => b == st_keep(m4, t4) && r == Ok::<
                                            Option<OrderBy>,
                                            SQLError,
                                        >(Some(OrderBy { terms, order: None })),
                                    },
                            },
                    }
            } else {
                b == st_keep(m, t) && r == Ok::<Option<OrderBy>, SQLError>(None)
            },
            _ => b == st_keep(m, t) && r == Ok::<Option<OrderBy>, SQLError>(None),
        }
}

/// One parenthesized value row and whatever rows follow, `acc` already
/// parsed: `(`, an expression list, `)`, then [`sp_values_more`].
pub open spec fn sp_values_step(
    src: Seq<char>,
    a: LexState,
    acc: Seq<ExpressionList>,
    b: LexState,
    r: Result<Values, SQLError>,
) -> bool
    decreases st_rem(src, a), 0int,
{
    exists|s1: LexState, r1: Result<(), SQLError>|
        #[trigger] sp_expect(src, a, TokenKind::LeftParen, s1, r1) && match r1 {
            Err(e) => b == s1 && r == Err::<Values, SQLError>(e),
            Ok(_) => exists|s2: LexState, r2: Result<ExpressionList, SQLError>|
                #[trigger] sp_eli(src, s1, s2, r2) && match r2 {
                    Err(e) => b == s2 && r == Err::<Values, SQLError>(e),
                    Ok(row) => exists|s3: LexState, r3: Result<(), SQLError>|
                        #[trigger] sp_expect(src, s2, TokenKind::RightParen, s3, r3) && match r3 {
                            Err(e) => b == s3 && r == Err::<Values, SQLError>(e),
                            Ok(_) => 0 <= st_rem(src, s3) < st_rem(src, a) && sp_values_more(
                                src,
                                s3,
                                acc.push(row),
                                b,
                                r,
                            ),
                        },
                },
        }
}

/// The tail of the value rows, `acc` already parsed: a comma opens one
/// more row; anything else -- left unconsumed -- closes the rows over
/// exactly `acc`.
pub open spec fn sp_values_more(
    src: Seq<char>,
    s: LexState,
    acc: Seq<ExpressionList>,
    b: LexState,
    r: Result<Values, SQLError>,
) -> bool
    decreases st_rem(src, s), 1int,
{
    exists|m: LexState, t: Option<Result<Token, SQLError>>|
        #[trigger] spec_read(src, s, m, t) && match t {
            Some(Ok(tok)) => if tok.kind is Comma {
                0 <= st_rem(src, m) < st_rem(src, s) && sp_values_step(src, m, acc, b, r)
            } else {
                b == st_keep(m, t) && (r matches Ok(v) && v.0@ == acc)
            },
            _ => b == st_keep(m, t) && (r matches Ok(v) && v.0@ == acc),
        }
}

/// One column definition: a name, a type keyword (`INT`, `FLOAT`, `TEXT`,
/// anything else refused as `InvalidDataType` naming it at its offset),
/// then the constraints.
pub open spec fn sp_cdef(
    src: Seq<char>,
    a: LexState,
    b: LexState,
    r: Result<Column, SQLError>,
) -> bool {
    exists|s1: LexState, r1: Result<String, SQLError>|
        #[trigger] sp_ident(src, a, s1, r1) && match r1 {
            Err(e) => b == s1 && r == Err::<Column, SQLError>(e),
            Ok(name) => exists|m: LexState, t: Option<Result<Token, SQLError>>|
                #[trigger] spec_read(src, s1, m, t) && match t {
                    None => b == m && (r matches Err(e) && e.kind is UnexpectedEnd && e.pos
                        == m.pos),
                    Some(Err(le)) => b == m && r == Err::<Column, SQLError>(le),
                    Some(Ok(tok)) => match tok.kind {
                        TokenKind::Keyword(Keyword::Int) => sp_constraints(
                            src,
                            m,
                            name,
                            ColumnType::Int,
                            Seq::<ColumnConstraint>::empty(),
                            false,
                            false,
                            b,
                            r,
                        ),
                        TokenKind::Keyword(Keyword::Float) => sp_constraints(
                            src,
                            m,
                            name,
                            ColumnType::Float,
                            Seq::<ColumnConstraint>::empty(),
                            false,
                            false,
                            b,
                            r,
                        ),
                        TokenKind::Keyword(Keyword::Text) => sp_constraints(
                            src,
                            m,
                            name,
                            ColumnType::Text,
                            Seq::<ColumnConstraint>::empty(),
                            false,
                            false,
                            b,
                            r,
                        ),
                        _ => b == m && (r matches Err(e) && e.pos == tok.offset && e.kind
                            == SQLErrorKind::InvalidDataType { got: tok.kind }),
                    },
                },
        }
}

/// The constraint run of a column definition, `acc` collected so far and
/// the flags recording which constraints it holds: `PRIMARY` demands `KEY`
/// and, repeated, fails as `DuplicateConstraint` at the `PRIMARY` keyword;
/// `NULLABLE`, repeated, fails likewise at its keyword; any other token --
/// left unconsumed -- completes the column with name, type, and exactly
/// the collected constraints.
pub open spec fn sp_constraints(
    src: Seq<char>,
    s: LexState,
    name: String,
    ty: ColumnType,
    acc: Seq<ColumnConstraint>,
    has_p: bool,
    has_n: bool,
    b: LexState,
    r: Result<Column, SQLError>,
) -> bool
    decreases st_rem(src, s),
{
    exists|m: LexState, t: Option<Result<Token, SQLError>>|
        #[trigger] spec_read(src, s, m, t) && match t {
            Some(Ok(tok)) => if tok.kind == TokenKind::Keyword(Keyword::Primary) {
                exists|s2: LexState, r2: Result<(), SQLError>|
                    #[trigger] sp_expect(src, m, TokenKind::Keyword(Keyword::Key), s2, r2)
                        && match r2 {
                        Err(e) => b == s2 && r == Err::<Column, SQLError>(e),
                        Ok(_) => if has_p {
                            b == s2 && (r matches Err(e) && e.pos == tok.offset && (e.kind matches
                                SQLErrorKind::DuplicateConstraint { column, constraint } && column
                                == name && constraint == ColumnConstraint::PrimaryKey))
                        } else {
                            0 <= st_rem(src, s2) < st_rem(src, s) && sp_constraints(
                                src,
                                s2,
                                name,
                                ty,
                                acc.push(ColumnConstraint::PrimaryKey),
                                true,
                                has_n,
                                b,
                                r,
                            )
                        },
                    }
            } else if tok.kind == TokenKind::Keyword(Keyword::Nullable) {
                if has_n {
                    b == m && (r matches Err(e) && e.pos == tok.offset && (e.kind matches
                        SQLErrorKind::DuplicateConstraint { column, constraint } && column == name
                        && constraint == ColumnConstraint::Nullable))
                } else {
                    0 <= st_rem(src, m) < st_rem(src, s) && sp_constraints(
                        src,
                        m,
                        name,
                        ty,
                        acc.push(ColumnConstraint::Nullable),
                        has_p,
                        true,
                        b,
                        r,
                    )
                }
            } else {
                b == st_keep(m, t) && (r matches Ok(c) && c.name == name && c.column_type == ty
                    && c.constraints@ == acc)
            },
            _ => b == st_keep(m, t) && (r matches Ok(c) && c.name == name && c.column_type == ty
                && c.constraints@ == acc),
        }
}

/// The closing of a `CREATE TABLE` statement: `)`, then `;`, then the
/// statement over exactly the collected columns.
pub open spec fn sp_create_tail(
    src: Seq<char>,
    s: LexState,
    table_name: String,
    acc: Seq<Column>,
    b: LexState,
    r: Result<CreateTableQuery, SQLError>,
) -> bool {
    exists|s2: LexState, r2: Result<(), SQLError>|
        #[trigger] sp_expect(src, s, TokenKind::RightParen, s2, r2) && match r2 {
            Err(e) => b == s2 && r == Err::<CreateTableQuery, SQLError>(e),
            Ok(_) => exists|s3: LexState, r3: Result<(), SQLError>|
                #[trigger] sp_expect(src, s2, TokenKind::Semicolon, s3, r3) && b == s3 && match r3 {
                    Err(e) => r == Err::<CreateTableQuery, SQLError>(e),
                    Ok(_) => r matches Ok(q) && q.table_name == table_name && q.columns@ == acc,
                },
        }
}

/// The tail of the column definitions, `acc` already parsed: a comma opens
/// one more definition; anything else moves to [`sp_create_tail`].
pub open spec fn sp_create_cols(
    src: Seq<char>,
    s: LexState,
    table_name: String,
    acc: Seq<Column>,
    b: LexState,
    r: Result<CreateTableQuery, SQLError>,
) -> bool
    decreases st_rem(src, s),
{
    exists|m: LexState, t: Option<Result<Token, SQLError>>|
        #[trigger] spec_read(src, s, m, t) && match t {
            Some(Ok(tok)) => if tok.kind is Comma {
                0 <= st_rem(src, m) < st_rem(src, s) && exists|
                    s2: LexState,
                    r2: Result<Column, SQLError>,
                |
                    #[trigger] sp_cdef(src, m, s2, r2) && match r2 {
                        Err(e) => b == s2 && r == Err::<CreateTableQuery, SQLError>(e),
                        Ok(col) => 0 <= st_rem(src, s2) < st_rem(src, s) && sp_create_cols(
                            src,
                            s2,
                            table_name,
                            acc.push(col),
                            b,
                            r,
                        ),
                    }
            } else {
                sp_create_tail(src, st_keep(m, t), table_name, acc, b, r)
            },
            _ => sp_create_tail(src, st_keep(m, t), table_name, acc, b, r),
        }
}

/// The clauses of a `CREATE TABLE` statement, the `CREATE` keyword already
/// consumed: `TABLE`, the table name, `(`, a first column definition, then
/// the column tail and the closing.
pub open spec fn sp_create(
    src: Seq<char>,
    a: LexState,
    b: LexState,
    r: Result<CreateTableQuery, SQLError>,
) -> bool {
    exists|s1: LexState, r1: Result<(), SQLError>|
        #[trigger] sp_expect(src, a, TokenKind::Keyword(Keyword::Table), s1, r1) && match r1 {
            Err(e) => b == s1 && r == Err::<CreateTableQuery, SQLError>(e),
            Ok(_) => exists|s2: LexState, r2: Result<String, SQLError>|
                #[trigger] sp_ident(src, s1, s2, r2) && match r2 {
                    Err(e) => b == s2 && r == Err::<CreateTableQuery, SQLError>(e),
                    Ok(table_name) => exists|s3: LexState, r3: Result<(), SQLError>|
                        #[trigger] sp_expect(src, s2, TokenKind::LeftParen, s3, r3) && match r3 {
                            Err(e) => b == s3 && r == Err::<CreateTableQuery, SQLError>(e),
                            Ok(_) => exists|s4: LexState, r4: Result<Column, SQLError>|
                                #[trigger] sp_cdef(src, s3, s4, r4) && match r4 {
                                    Err(e) => b == s4 && r == Err::<CreateTableQuery, SQLError>(e),
                                    Ok(col) => sp_create_cols(
                                        src,
                                        s4,
                                        table_name,
                                        Seq::<Column>::empty().push(col),
                                        b,
                                        r,
                                    ),
                                },
                        },
                },
        }
}

/// The closing of a `SELECT` statement: the terminating semicolon, its
/// absence at end of input reported as `ExpectedCommaOrSemicolon`, then
/// the statement over exactly the collected clauses.
pub open spec fn sp_select_end(
    src: Seq<char>,
    s: LexState,
    cols: ExpressionList,
    table: Option<String>,
    wh: Option<Expression>,
    ob: Option<OrderBy>,
    limit: Option<u32>,
    offset: Option<u32>,
    b: LexState,
    r: Result<SelectQuery, SQLError>,
) -> bool {
    exists|s7: LexState, r7: Result<(), SQLError>|
        #[trigger] sp_expect(src, s, TokenKind::Semicolon, s7, r7) && b == s7 && match r7 {
            Err(e) => match r {
                Err(e2) => if e.kind is UnexpectedEnd {
                    e2.kind is ExpectedCommaOrSemicolon && e2.pos == e.pos
                } else {
                    e2 == e
                },
                Ok(_) => false,
            },
            Ok(_) => r == Ok::<SelectQuery, SQLError>(
                SelectQuery {
                    columns: cols,
                    table,
                    where_clause: wh,
                    order_by: ob,
                    limit,
                    offset,
                },
            ),
        }
}

/// The `OFFSET` clause of a `SELECT` statement and what follows it.
pub open spec fn sp_select_offset(
    src: Seq<char>,
    s: LexState,
    cols: ExpressionList,
    table: Option<String>,
    wh: Option<Expression>,
    ob: Option<OrderBy>,
    limit: Option<u32>,
    b: LexState,
    r: Result<SelectQuery, SQLError>,
) -> bool {
    exists|s6: LexState, r6: Result<Option<u32>, SQLError>|
        #[trigger] sp_opt_nonneg(src, s, Keyword::Offset, s6, r6) && match r6 {
            Err(e) => b == s6 && r == Err::<SelectQuery, SQLError>(e),
            Ok(offset) => sp_select_end(src, s6, cols, table, wh, ob, limit, offset, b, r),
        }
}

/// The `LIMIT` clause of a `SELECT` statement and what follows it.
pub open spec fn sp_select_limit(
    src: Seq<char>,
    s: LexState,
    cols: ExpressionList,
    table: Option<String>,
    wh: Option<Expression>,
    ob: Option<OrderBy>,
    b: LexState,
    r: Result<SelectQuery, SQLError>,
) -> bool {
    exists|s5: LexState, r5: Result<Option<u32>, SQLError>|
        #[trigger] sp_opt_nonneg(src, s, Keyword::Limit, s5, r5) && match r5 {
            Err(e) => b == s5 && r == Err::<SelectQuery, SQLError>(e),
            Ok(limit) => sp_select_offset(src, s5, cols, table, wh, ob, limit, b, r),
        }
}

/// The `ORDER BY` clause of a `SELECT` statement and what follows it.
pub open spec fn sp_select_order(
    src: Seq<char>,
    s: LexState,
    cols: ExpressionList,
    table: Option<String>,
    wh: Option<Expression>,
    b: LexState,
    r: Result<SelectQuery, SQLError>,
) -> bool {
    exists|s4: LexState, r4: Result<Option<OrderBy>, SQLError>|
        #[trigger] sp_order_by(src, s, s4, r4) && match r4 {
            Err(e) => b == s4 && r == Err::<SelectQuery, SQLError>(e),
            Ok(ob) => sp_select_limit(src, s4, cols, table, wh, ob, b, r),
        }
}

/// The `WHERE` clause of a `SELECT` statement and what follows it.
pub open spec fn sp_select_where(
    src: Seq<char>,
    s: LexState,
    cols: ExpressionList,
    table: Option<String>,
    b: LexState,
    r: Result<SelectQuery, SQLError>,
) -> bool {
    exists|s3: LexState, r3: Result<Option<Expression>, SQLError>|
        #[trigger] sp_opt_expr(src, s, Keyword::Where, s3, r3) && match r3 {
            Err(e) => b == s3 && r == Err::<SelectQuery, SQLError>(e),
            Ok(wh) => sp_select_order(src, s3, cols, table, wh, b, r),
        }
}

/// The `FROM` clause of a `SELECT` statement and what follows it.
pub open spec fn sp_select_from(
    src: Seq<char>,
    s: LexState,
    cols: ExpressionList,
    b: LexState,
    r: Result<SelectQuery, SQLError>,
) -> bool {
    exists|s2: LexState, r2: Result<Option<String>, SQLError>|
        #[trigger] sp_opt_ident(src, s, Keyword::From, s2, r2) && match r2 {
            Err(e) => b == s2 && r == Err::<SelectQuery, SQLError>(e),
            Ok(table) => sp_select_where(src, s2, cols, table, b, r),
        }
}

/// The clauses of a `SELECT` statement, the keyword already consumed: the
/// column list (end of input there reported as `ExpectedExpression`), then
/// `FROM`, `WHERE`, `ORDER BY`, `LIMIT` and `OFFSET`, each present exactly
/// when its keyword is next, in that order, then the semicolon.
pub open spec fn sp_select(
    src: Seq<char>,
    a: LexState,
    b: LexState,
    r: Result<SelectQuery, SQLError>,
) -> bool {
    exists|s1: LexState, r1: Result<ExpressionList, SQLError>|
        #[trigger] sp_eli(src, a, s1, r1) && match r1 {
            Err(e) => b == s1 && (match r {
                Err(e2) => if e.kind is UnexpectedEnd {
                    e2.kind is ExpectedExpression && e2.pos == e.pos
                } else {
                    e2 == e
                },
                Ok(_) => false,
            }),
            Ok(cols) => sp_select_from(src, s1, cols, b, r),
        }
}

/// The closing of an `INSERT` statement: the value rows and the
/// terminating semicolon, then the statement over exactly the collected
/// parts.
pub open spec fn sp_insert_rows(
    src: Seq<char>,
    s: LexState,
    table: String,
    columns: IdentifierList,
    b: LexState,
    r: Result<InsertQuery, SQLError>,
) -> bool {
    exists|s6: LexState, r6: Result<Values, SQLError>|
        #[trigger] sp_values_step(src, s, Seq::<ExpressionList>::empty(), s6, r6) && match r6 {
            Err(e) => b == s6 && r == Err::<InsertQuery, SQLError>(e),
            Ok(values) => exists|s7: LexState, r7: Result<(), SQLError>|
                #[trigger] sp_expect(src, s6, TokenKind::Semicolon, s7, r7) && b == s7 && match r7 {
                    Err(e) => r == Err::<InsertQuery, SQLError>(e),
                    Ok(_) => r == Ok::<InsertQuery, SQLError>(
                        InsertQuery { table, columns, values },
                    ),
                },
        }
}

/// The clauses of an `INSERT` statement, the keyword already consumed:
/// `INTO`, the table name, the parenthesized column names, `VALUES`, the
/// rows, and the semicolon.
pub open spec fn sp_insert(
    src: Seq<char>,
    a: LexState,
    b: LexState,
    r: Result<InsertQuery, SQLError>,
) -> bool {
    exists|s1: LexState, r1: Result<(), SQLError>|
        #[trigger] sp_expect(src, a, TokenKind::Keyword(Keyword::Into), s1, r1) && match r1 {
            Err(e) => b == s1 && r == Err::<InsertQuery, SQLError>(e),
            Ok(_) => exists|s2: LexState, r2: Result<String, SQLError>|
                #[trigger] sp_ident(src, s1, s2, r2) && match r2 {
                    Err(e) => b == s2 && r == Err::<InsertQuery, SQLError>(e),
                    Ok(table) => exists|s3: LexState, r3: Result<(), SQLError>|
                        #[trigger] sp_expect(src, s2, TokenKind::LeftParen, s3, r3) && match r3 {
                            Err(e) => b == s3 && r == Err::<InsertQuery, SQLError>(e),
                            Ok(_) => exists|s4: LexState, r4: Result<IdentifierList, SQLError>|
                                #[trigger] sp_idl(src, s3, s4, r4) && match r4 {
                                    Err(e) => b == s4 && r == Err::<InsertQuery, SQLError>(e),
                                    Ok(columns) => exists|s5: LexState, r5: Result<(), SQLError>|
                                        #[trigger] sp_expect(
                                            src,
                                            s4,
                                            TokenKind::RightParen,
                                            s5,
                                            r5,
                                        ) && match r5 {
                                            Err(e) => b == s5 && r == Err::<InsertQuery, SQLError>(
                                                e,
                                            ),
                                            Ok(_) => exists|
                                                s6: LexState,
                                                r6: Result<(), SQLError>,
                                            |
                                                #[trigger] sp_expect(
                                                    src,
                                                    s5,
                                                    TokenKind::Keyword(Keyword::Values),
                                                    s6,
                                                    r6,
                                                ) && match r6 {
                                                    Err(e) => b == s6 && r == Err::<
                                                        InsertQuery,
                                                        SQLError,
                                                    >(e),
                                                    Ok(_) => sp_insert_rows(
                                                        src,
                                                        s6,
                                                        table,
                                                        columns,
                                                        b,
                                                        r,
                                                    ),
                                                },
                                        },
                                },
                        },
                },
        }
}

/// One statement, dispatched on its first token: `SELECT`, `INSERT` and
/// `CREATE` open their statement kinds, whose results lift into
/// [`Statement`]; any other token is refused as `Other` at its offset;
/// exhausted input is `UnexpectedEnd`.
pub open spec fn sp_stmt(
    src: Seq<char>,
    a: LexState,
    b: LexState,
    r: Result<Statement, SQLError>,
) -> bool {
    exists|m: LexState, t: Option<Result<Token, SQLError>>|
        #[trigger] spec_read(src, a, m, t) && match t {
            None => b == m && (r matches Err(e) && e.kind is UnexpectedEnd && e.pos == m.pos),
            Some(Err(le)) => b == m && r == Err::<Statement, SQLError>(le),
            Some(Ok(tok)) => match tok.kind {
                TokenKind::Keyword(Keyword::Select) => exists|rq: Result<SelectQuery, SQLError>|
                    #[trigger] sp_select(src, m, b, rq) && match rq {
                        Ok(q) => r == Ok::<Statement, SQLError>(Statement::Select(q)),
                        Err(e) => r == Err::<Statement, SQLError>(e),
                    },
                TokenKind::Keyword(Keyword::Insert) => exists|rq: Result<InsertQuery, SQLError>|
                    #[trigger] sp_insert(src, m, b, rq) && match rq {
                        Ok(q) => r == Ok::<Statement, SQLError>(Statement::Insert(q)),
                        Err(e) => r == Err::<Statement, SQLError>(e),
                    },
                TokenKind::Keyword(Keyword::Create) => exists|
                    rq: Result<CreateTableQuery, SQLError>,
                |
                    #[trigger] sp_create(src, m, b, rq) && match rq {
                        Ok(q) => r == Ok::<Statement, SQLError>(Statement::CreateTable(q)),
                        Err(e) => r == Err::<Statement, SQLError>(e),
                    },
                _ => b == m && (r matches Err(e) && e.pos == tok.offset && e.kind
                    == SQLErrorKind::Other(tok.kind)),
            },
        }
}

impl Lexer {
    /// Consumes the next token, which must be of the expected kind; fails
    /// with `UnexpectedTokenKind` at the token's offset on another token,
    /// `UnexpectedEnd` when the input is exhausted, and the lexer's own
    /// error when the next token is one: exactly [`sp_expect`].
    pub fn expect_token(&mut self, expected: TokenKind) -> (r: Result<(), SQLError>)
        requires
            old(self).wf(),
        ensures
            final(self).wf(),
            final(self).spec_src() == old(self).spec_src(),
            final(self).spec_remaining() <= old(self).spec_remaining(),
            r is Ok ==> final(self).spec_remaining() < old(self).spec_remaining(),
            final(self).spec_peeked() is None,
            sp_expect(old(self).spec_src(), old(self).st(), expected, final(self).st(), r),
    {
        match self.next() {
            None => Err(SQLError::new(SQLErrorKind::UnexpectedEnd, self.position())),
            Some(Err(e)) => Err(e),
            Some(Ok(token)) => {
                if token_kind_eq(&token.kind, &expected) {
                    Ok(())
                } else {
                    Err(
                        SQLError::new(
                            SQLErrorKind::UnexpectedTokenKind { expected, got: token.kind },
                            token.offset,
                        ),
                    )
                }
            },
        }
    }
}

/// The SQL statement parser over a lexer.
pub struct Parser {
    lexer: Lexer,
}

impl Parser {
    /// The parser's lexer state, for contracts that pin what one token
    /// read returns.
    pub closed spec fn spec_lexer(&self) -> Lexer {
        self.lexer
    }

    /// The source characters under the parser.
    pub open spec fn psrc(&self) -> Seq<char> {
        self.spec_lexer().spec_src()
    }

    /// The parser's observable lexer state.
    pub open spec fn st(&self) -> LexState {
        self.spec_lexer().st()
    }

    /// The lexer's remaining input; every parsing step consumes from it.
    pub open spec fn spec_remaining(&self) -> int {
        self.spec_lexer().spec_remaining()
    }

    /// The parser invariant: its lexer's.
    pub open spec fn wf(&self) -> bool {
        self.spec_lexer().wf()
    }

    /// Builds a parser over `source`.
    pub fn new(source: &str) -> (r: Parser)
        ensures
            r.wf(),
            r.psrc() == source@,
            r.st() == (LexState { i: 0int, pos: 0int, peeked: None::<Result<Token, SQLError>> }),
    {
        Parser { lexer: Lexer::new(source) }
    }

    /// Peeks the next token: a copy is returned, the original stays
    /// buffered, and one read from the entry state is pinned to what was
    /// buffered, with the stripped final state as the read's landing
    /// point.
    fn peek_tok(&mut self) -> (r: Option<Result<Token, SQLError>>)
        requires
            old(self).wf(),
        ensures
            final(self).wf(),
            final(self).psrc() == old(self).psrc(),
            final(self).spec_remaining() <= old(self).spec_remaining(),
            spec_read(
                old(self).psrc(),
                old(self).st(),
                spec_strip(final(self).st()),
                final(self).spec_lexer().spec_peeked(),
            ),
            match (r, final(self).spec_lexer().spec_peeked()) {
                (None, None) => true,
                (Some(Ok(a)), Some(Ok(bt))) => crate::lexer::spec_token_eqv(a, bt)
                    && spec_stop_kind(a.kind) == spec_stop_kind(bt.kind)
                    && crate::ast::spec_op_of_token(a.kind) == crate::ast::spec_op_of_token(
                    bt.kind,
                ) && (a.kind matches TokenKind::Keyword(kw) ==> bt.kind == TokenKind::Keyword(kw))
                    && (bt.kind matches TokenKind::Keyword(kw2) ==> a.kind == TokenKind::Keyword(
                    kw2,
                )) && ((a.kind is Comma) == (bt.kind is Comma)),
                (Some(Err(ea)), Some(Err(eb))) => crate::lexer::spec_err_eqv(ea, eb),
                _ => false,
            },
    {
        let r = self.lexer.peek();
        proof {
            if old(self).spec_lexer().spec_peeked() is Some {
                crate::lexer::lemma_read_buffered(old(self).lexer);
            }
            let rg = r;
            match (rg, self.lexer.spec_peeked()) {
                (Some(Ok(a)), Some(Ok(bt))) => {
                    lemma_kind_eqv_props(a.kind, bt.kind);
                },
                _ => {},
            }
        }
        r
    }

    /// Parses the next statement; `None` once the input is exhausted (and
    /// whenever a statement ends prematurely at the end of input, where
    /// iteration stops as well). After an error, iteration should stop.
    pub fn next_statement(&mut self) -> (r: Option<Result<Statement, SQLError>>)
        requires
            old(self).wf(),
        ensures
            final(self).wf(),
            final(self).psrc() == old(self).psrc(),
            final(self).spec_remaining() <= old(self).spec_remaining(),
            exists|rs: Result<Statement, SQLError>|
                #[trigger] sp_stmt(old(self).psrc(), old(self).st(), final(self).st(), rs)
                    && match rs {
                    Ok(s) => r == Some(Ok::<Statement, SQLError>(s)),
                    Err(e) => if e.kind is UnexpectedEnd {
                        r is None
                    } else {
                        r == Some(Err::<Statement, SQLError>(e))
                    },
                },
            old(self).spec_lexer().spec_peeked() is None && crate::lexer::spec_skip(
                old(self).psrc(),
                old(self).spec_lexer().spec_i(),
            ) == old(self).psrc().len() ==> r is None,
    {
        match self.stmt() {
            Err(e) => match e.kind {
                SQLErrorKind::UnexpectedEnd => None,
                _ => Some(Err(e)),
            },
            Ok(stmt) => Some(Ok(stmt)),
        }
    }

    /// Parses one statement, dispatching on the leading keyword: exactly
    /// [`sp_stmt`]. On exhausted input the error kind is `UnexpectedEnd`.
    pub fn stmt(&mut self) -> (r: Result<Statement, SQLError>)
        requires
            old(self).wf(),
        ensures
            final(self).wf(),
            final(self).psrc() == old(self).psrc(),
            final(self).spec_remaining() <= old(self).spec_remaining(),
            sp_stmt(old(self).psrc(), old(self).st(), final(self).st(), r),
            old(self).spec_lexer().spec_peeked() is None && crate::lexer::spec_skip(
                old(self).psrc(),
                old(self).spec_lexer().spec_i(),
            ) == old(self).psrc().len() ==> (r matches Err(e) && e.kind is UnexpectedEnd),
        decreases old(self).spec_remaining(), 9int,
    {
        let nx = self.lexer.next();
        let token = match nx {
            None => {
                return Err(SQLError::new(SQLErrorKind::UnexpectedEnd, self.lexer.position()));
            },
            Some(Err(e)) => {
                return Err(e);
            },
            Some(Ok(t)) => t,
        };
        match token.kind {
            TokenKind::Keyword(Keyword::Select) => match self.parse_select_query() {
                Ok(q) => Ok(Statement::Select(q)),
                Err(e) => Err(e),
            },
            TokenKind::Keyword(Keyword::Insert) => match self.parse_insert_query() {
                Ok(q) => Ok(Statement::Insert(q)),
                Err(e) => Err(e),
            },
            TokenKind::Keyword(Keyword::Create) => match self.parse_create_table_query() {
                Ok(q) => Ok(Statement::CreateTable(q)),
                Err(e) => Err(e),
            },
            other => Err(SQLError::new(SQLErrorKind::Other(other), token.offset)),
        }
    }

    /// Parses the clauses of a `SELECT` statement, the keyword already
    /// consumed: exactly [`sp_select`].
    pub fn parse_select_query(&mut self) -> (r: Result<SelectQuery, SQLError>)
        requires
            old(self).wf(),
        ensures
            final(self).wf(),
            final(self).psrc() == old(self).psrc(),
            final(self).spec_remaining() <= old(self).spec_remaining(),
            sp_select(old(self).psrc(), old(self).st(), final(self).st(), r),
        decreases old(self).spec_remaining(), 8int,
    {
        let ghost src = self.psrc();
        let ghost a0 = self.st();
        let columns = match self.parse_expression_list() {
            Ok(cols) => cols,
            Err(e) => match e.kind {
                SQLErrorKind::UnexpectedEnd => {
                    return Err(SQLError::new(SQLErrorKind::ExpectedExpression, e.pos));
                },
                _ => {
                    return Err(e);
                },
            },
        };
        let ghost s1 = self.st();
        let ghost colsg = columns;
        let table = match self.opt_kw_ident(Keyword::From) {
            Ok(v) => v,
            Err(e) => {
                let r = Err(e);
                proof {
                    assert(sp_select_from(src, s1, colsg, self.st(), r));
                }
                return r;
            },
        };
        let ghost s2 = self.st();
        let ghost tableg = table;
        let where_clause = match self.opt_kw_expr(Keyword::Where) {
            Ok(v) => v,
            Err(e) => {
                let r = Err(e);
                proof {
                    assert(sp_select_where(src, s2, colsg, tableg, self.st(), r));
                    assert(sp_select_from(src, s1, colsg, self.st(), r));
                }
                return r;
            },
        };
        let ghost s3 = self.st();
        let ghost whg = where_clause;
        let order_by = match self.parse_order_by() {
            Ok(v) => v,
            Err(e) => {
                let r = Err(e);
                proof {
                    assert(sp_select_order(src, s3, colsg, tableg, whg, self.st(), r));
                    assert(sp_select_where(src, s2, colsg, tableg, self.st(), r));
                    assert(sp_select_from(src, s1, colsg, self.st(), r));
                }
                return r;
            },
        };
        let ghost s4 = self.st();
        let ghost obg = order_by;
        let limit = match self.opt_kw_nonneg(Keyword::Limit) {
            Ok(v) => v,
            Err(e) => {
                let r = Err(e);
                proof {
                    assert(sp_select_limit(src, s4, colsg, tableg, whg, obg, self.st(), r));
                    assert(sp_select_order(src, s3, colsg, tableg, whg, self.st(), r));
                    assert(sp_select_where(src, s2, colsg, tableg, self.st(), r));
                    assert(sp_select_from(src, s1, colsg, self.st(), r));
                }
                return r;
            },
        };
        let ghost s5 = self.st();
        let ghost limitg = limit;
        let offset = match self.opt_kw_nonneg(Keyword::Offset) {
            Ok(v) => v,
            Err(e) => {
                let r = Err(e);
                proof {
                    assert(sp_select_offset(src, s5, colsg, tableg, whg, obg, limitg, self.st(), r));
                    assert(sp_select_limit(src, s4, colsg, tableg, whg, obg, self.st(), r));
                    assert(sp_select_order(src, s3, colsg, tableg, whg, self.st(), r));
                    assert(sp_select_where(src, s2, colsg, tableg, self.st(), r));
                    assert(sp_select_from(src, s1, colsg, self.st(), r));
                }
                return r;
            },
        };
        let ghost s6 = self.st();
        let ghost offsetg = offset;
        let r: Result<SelectQuery, SQLError> = match self.lexer.expect_token(
            TokenKind::Semicolon,
        ) {
            Ok(()) => Ok(
                SelectQuery { columns, table, where_clause, order_by, limit, offset },
            ),
            Err(e) => match e.kind {
                SQLErrorKind::UnexpectedEnd => Err(
                    SQLError::new(SQLErrorKind::ExpectedCommaOrSemicolon, e.pos),
                ),
                _ => Err(e),
            },
        };
        proof {
            assert(sp_select_end(
                src,
                s6,
                colsg,
                tableg,
                whg,
                obg,
                limitg,
                offsetg,
                self.st(),
                r,
            ));
            assert(sp_select_offset(src, s5, colsg, tableg, whg, obg, limitg, self.st(), r));
            assert(sp_select_limit(src, s4, colsg, tableg, whg, obg, self.st(), r));
            assert(sp_select_order(src, s3, colsg, tableg, whg, self.st(), r));
            assert(sp_select_where(src, s2, colsg, tableg, self.st(), r));
            assert(sp_select_from(src, s1, colsg, self.st(), r));
        }
        r
    }

    /// Parses an optional clause opened by `kw` and carrying an
    /// identifier: exactly [`sp_opt_ident`].
    fn opt_kw_ident(&mut self, kw: Keyword) -> (r: Result<Option<String>, SQLError>)
        requires
            old(self).wf(),
        ensures
            final(self).wf(),
            final(self).psrc() == old(self).psrc(),
            final(self).spec_remaining() <= old(self).spec_remaining(),
            sp_opt_ident(old(self).psrc(), old(self).st(), kw, final(self).st(), r),
        decreases old(self).spec_remaining(), 5int,
    {
        let is_kw = match self.peek_tok() {
            Some(Ok(Token { kind: TokenKind::Keyword(k2), .. })) => k2 == kw,
            _ => false,
        };
        if !is_kw {
            return Ok(None);
        }
        let _ = self.lexer.next();
        match self.parse_identifier() {
            Ok(id) => Ok(Some(id)),
            Err(e) => Err(e),
        }
    }

    /// Parses an optional clause opened by `kw` and carrying an
    /// expression: exactly [`sp_opt_expr`].
    fn opt_kw_expr(&mut self, kw: Keyword) -> (r: Result<Option<Expression>, SQLError>)
        requires
            old(self).wf(),
        ensures
            final(self).wf(),
            final(self).psrc() == old(self).psrc(),
            final(self).spec_remaining() <= old(self).spec_remaining(),
            sp_opt_expr(old(self).psrc(), old(self).st(), kw, final(self).st(), r),
        decreases old(self).spec_remaining(), 5int,
    {
        let is_kw = match self.peek_tok() {
            Some(Ok(Token { kind: TokenKind::Keyword(k2), .. })) => k2 == kw,
            _ => false,
        };
        if !is_kw {
            return Ok(None);
        }
        let _ = self.lexer.next();
        match self.expr_bp(0) {
            Ok(e) => Ok(Some(e)),
            Err(e) => Err(e),
        }
    }

    /// Parses an optional clause opened by `kw` and carrying a
    /// non-negative integer: exactly [`sp_opt_nonneg`].
    fn opt_kw_nonneg(&mut self, kw: Keyword) -> (r: Result<Option<u32>, SQLError>)
        requires
            old(self).wf(),
        ensures
            final(self).wf(),
            final(self).psrc() == old(self).psrc(),
            final(self).spec_remaining() <= old(self).spec_remaining(),
            sp_opt_nonneg(old(self).psrc(), old(self).st(), kw, final(self).st(), r),
        decreases old(self).spec_remaining(), 5int,
    {
        let is_kw = match self.peek_tok() {
            Some(Ok(Token { kind: TokenKind::Keyword(k2), .. })) => k2 == kw,
            _ => false,
        };
        if !is_kw {
            return Ok(None);
        }
        let _ = self.lexer.next();
        self.parse_non_negative_integer()
    }

    /// Parses an optional `ORDER BY` clause: exactly [`sp_order_by`].
    pub fn parse_order_by(&mut self) -> (r: Result<Option<OrderBy>, SQLError>)
        requires
            old(self).wf(),
        ensures
            final(self).wf(),
            final(self).psrc() == old(self).psrc(),
            final(self).spec_remaining() <= old(self).spec_remaining(),
            sp_order_by(old(self).psrc(), old(self).st(), final(self).st(), r),
        decreases old(self).spec_remaining(), 7int,
    {
        let is_order = match self.peek_tok() {
            Some(Ok(Token { kind: TokenKind::Keyword(Keyword::Order), .. })) => true,
            _ => false,
        };
        if !is_order {
            return Ok(None);
        }
        let _ = self.lexer.next();
        match self.lexer.expect_token(TokenKind::Keyword(Keyword::By)) {
            Ok(()) => {},
            Err(e) => {
                return Err(e);
            },
        }
        let terms = match self.parse_expression_list() {
            Ok(t) => t,
            Err(e) => {
                return Err(e);
            },
        };
        let dir = match self.peek_tok() {
            Some(Ok(Token { kind: TokenKind::Keyword(Keyword::Asc), .. })) => 1u8,
            Some(Ok(Token { kind: TokenKind::Keyword(Keyword::Desc), .. })) => 2u8,
            _ => 0u8,
        };
        let order = if dir == 1 {
            let _ = self.lexer.next();
            Some(Ordering::Ascending)
        } else if dir == 2 {
            let _ = self.lexer.next();
            Some(Ordering::Descending)
        } else {
            None
        };
        Ok(Some(OrderBy { terms, order }))
    }

    /// Parses the clauses of an `INSERT` statement, the keyword already
    /// consumed: exactly [`sp_insert`].
    pub fn parse_insert_query(&mut self) -> (r: Result<InsertQuery, SQLError>)
        requires
            old(self).wf(),
        ensures
            final(self).wf(),
            final(self).psrc() == old(self).psrc(),
            final(self).spec_remaining() <= old(self).spec_remaining(),
            sp_insert(old(self).psrc(), old(self).st(), final(self).st(), r),
        decreases old(self).spec_remaining(), 8int,
    {
        match self.lexer.expect_token(TokenKind::Keyword(Keyword::Into)) {
            Ok(()) => {},
            Err(e) => {
                return Err(e);
            },
        }
        let table = match self.parse_identifier() {
            Ok(id) => id,
            Err(e) => {
                return Err(e);
            },
        };
        match self.lexer.expect_token(TokenKind::LeftParen) {
            Ok(()) => {},
            Err(e) => {
                return Err(e);
            },
        }
        let columns = match self.parse_identifier_list() {
            Ok(ids) => ids,
            Err(e) => {
                return Err(e);
            },
        };
        match self.lexer.expect_token(TokenKind::RightParen) {
            Ok(()) => {},
            Err(e) => {
                return Err(e);
            },
        }
        match self.lexer.expect_token(TokenKind::Keyword(Keyword::Values)) {
            Ok(()) => {},
            Err(e) => {
                return Err(e);
            },
        }
        let values = match self.parse_values() {
            Ok(v) => v,
            Err(e) => {
                return Err(e);
            },
        };
        match self.lexer.expect_token(TokenKind::Semicolon) {
            Ok(()) => {},
            Err(e) => {
                return Err(e);
            },
        }
        Ok(InsertQuery { table, columns, values })
    }

    /// Parses the parenthesized value rows of an `INSERT` statement:
    /// exactly [`sp_values_step`] from an empty row list.
    fn parse_values(&mut self) -> (r: Result<Values, SQLError>)
        requires
            old(self).wf(),
        ensures
            final(self).wf(),
            final(self).psrc() == old(self).psrc(),
            final(self).spec_remaining() <= old(self).spec_remaining(),
            sp_values_step(
                old(self).psrc(),
                old(self).st(),
                Seq::<ExpressionList>::empty(),
                final(self).st(),
                r,
            ),
        decreases old(self).spec_remaining(), 6int,
    {
        self.values_step(Vec::new())
    }

    /// Parses one parenthesized value row onto `rows` and continues with
    /// the remaining rows: exactly [`sp_values_step`].
    fn values_step(&mut self, rows: Vec<ExpressionList>) -> (r: Result<Values, SQLError>)
        requires
            old(self).wf(),
        ensures
            final(self).wf(),
            final(self).psrc() == old(self).psrc(),
            final(self).spec_remaining() <= old(self).spec_remaining(),
            sp_values_step(old(self).psrc(), old(self).st(), rows@, final(self).st(), r),
        decreases old(self).spec_remaining(), 5int,
    {
        match self.lexer.expect_token(TokenKind::LeftParen) {
            Ok(()) => {},
            Err(e) => {
                return Err(e);
            },
        }
        let row = match self.parse_expression_list() {
            Ok(l) => l,
            Err(e) => {
                return Err(e);
            },
        };
        match self.lexer.expect_token(TokenKind::RightParen) {
            Ok(()) => {},
            Err(e) => {
                return Err(e);
            },
        }
        let mut rows2 = rows;
        rows2.push(row);
        self.values_rest(rows2)
    }

    /// Parses the remaining value rows after `rows`: exactly
    /// [`sp_values_more`].
    fn values_rest(&mut self, rows: Vec<ExpressionList>) -> (r: Result<Values, SQLError>)
        requires
            old(self).wf(),
        ensures
            final(self).wf(),
            final(self).psrc() == old(self).psrc(),
            final(self).spec_remaining() <= old(self).spec_remaining(),
            sp_values_more(old(self).psrc(), old(self).st(), rows@, final(self).st(), r),
        decreases old(self).spec_remaining(), 4int,
    {
        let is_comma = match self.peek_tok() {
            Some(Ok(Token { kind: TokenKind::Comma, .. })) => true,
            _ => false,
        };
        if !is_comma {
            return Ok(Values(rows));
        }
        let _ = self.lexer.next();
        self.values_step(rows)
    }

    /// Parses the clauses of a `CREATE TABLE` statement, the keyword
    /// already consumed: exactly [`sp_create`].
    pub fn parse_create_table_query(&mut self) -> (r: Result<CreateTableQuery, SQLError>)
        requires
            old(self).wf(),
        ensures
            final(self).wf(),
            final(self).psrc() == old(self).psrc(),
            final(self).spec_remaining() <= old(self).spec_remaining(),
            sp_create(old(self).psrc(), old(self).st(), final(self).st(), r),
        decreases old(self).spec_remaining(), 8int,
    {
        match self.lexer.expect_token(TokenKind::Keyword(Keyword::Table)) {
            Ok(()) => {},
            Err(e) => {
                return Err(e);
            },
        }
        let table_name = match self.parse_identifier() {
            Ok(id) => id,
            Err(e) => {
                return Err(e);
            },
        };
        match self.lexer.expect_token(TokenKind::LeftParen) {
            Ok(()) => {},
            Err(e) => {
                return Err(e);
            },
        }
        let first = match self.parse_column_definition() {
            Ok(c) => c,
            Err(e) => {
                return Err(e);
            },
        };
        let mut columns: Vec<Column> = Vec::new();
        columns.push(first);
        self.create_cols_rest(table_name, columns)
    }

    /// Parses the remaining column definitions after `columns` and the
    /// statement's closing: exactly [`sp_create_cols`].
    fn create_cols_rest(&mut self, table_name: String, columns: Vec<Column>) -> (r: Result<
        CreateTableQuery,
        SQLError,
    >)
        requires
            old(self).wf(),
        ensures
            final(self).wf(),
            final(self).psrc() == old(self).psrc(),
            final(self).spec_remaining() <= old(self).spec_remaining(),
            sp_create_cols(
                old(self).psrc(),
                old(self).st(),
                table_name,
                columns@,
                final(self).st(),
                r,
            ),
        decreases old(self).spec_remaining(), 4int,
    {
        let is_comma = match self.peek_tok() {
            Some(Ok(Token { kind: TokenKind::Comma, .. })) => true,
            _ => false,
        };
        if !is_comma {
            match self.lexer.expect_token(TokenKind::RightParen) {
                Ok(()) => {},
                Err(e) => {
                    return Err(e);
                },
            }
            match self.lexer.expect_token(TokenKind::Semicolon) {
                Ok(()) => {},
                Err(e) => {
                    return Err(e);
                },
            }
            return Ok(CreateTableQuery { table_name, columns });
        }
        let _ = self.lexer.next();
        let col = match self.parse_column_definition() {
            Ok(c) => c,
            Err(e) => {
                return Err(e);
            },
        };
        let mut columns2 = columns;
        columns2.push(col);
        self.create_cols_rest(table_name, columns2)
    }

    /// Parses one column definition: exactly [`sp_cdef`].
    fn parse_column_definition(&mut self) -> (r: Result<Column, SQLError>)
        requires
            old(self).wf(),
        ensures
            final(self).wf(),
            final(self).psrc() == old(self).psrc(),
            final(self).spec_remaining() <= old(self).spec_remaining(),
            r is Ok ==> final(self).spec_remaining() < old(self).spec_remaining(),
            sp_cdef(old(self).psrc(), old(self).st(), final(self).st(), r),
        decreases old(self).spec_remaining(), 7int,
    {
        let name = match self.parse_identifier() {
            Ok(id) => id,
            Err(e) => {
                return Err(e);
            },
        };
        let column_type = match self.lexer.next() {
            Some(Ok(Token { kind: TokenKind::Keyword(Keyword::Int), .. })) => ColumnType::Int,
            Some(Ok(Token { kind: TokenKind::Keyword(Keyword::Float), .. })) => ColumnType::Float,
            Some(Ok(Token { kind: TokenKind::Keyword(Keyword::Text), .. })) => ColumnType::Text,
            Some(Ok(Token { kind, offset })) => {
                return Err(SQLError::new(SQLErrorKind::InvalidDataType { got: kind }, offset));
            },
            Some(Err(e)) => {
                return Err(e);
            },
            None => {
                return Err(SQLError::new(SQLErrorKind::UnexpectedEnd, self.lexer.position()));
            },
        };
        self.constraints_rest(name, column_type, Vec::new(), false, false)
    }

    /// Parses the remaining constraints of a column definition after
    /// `constraints`: exactly [`sp_constraints`].
    fn constraints_rest(
        &mut self,
        name: String,
        column_type: ColumnType,
        constraints: Vec<ColumnConstraint>,
        has_primary: bool,
        has_nullable: bool,
    ) -> (r: Result<Column, SQLError>)
        requires
            old(self).wf(),
        ensures
            final(self).wf(),
            final(self).psrc() == old(self).psrc(),
            final(self).spec_remaining() <= old(self).spec_remaining(),
            sp_constraints(
                old(self).psrc(),
                old(self).st(),
                name,
                column_type,
                constraints@,
                has_primary,
                has_nullable,
                final(self).st(),
                r,
            ),
        decreases old(self).spec_remaining(), 4int,
    {
        let which = match self.peek_tok() {
            Some(Ok(Token { kind: TokenKind::Keyword(Keyword::Primary), offset })) => (1u8, offset),
            Some(Ok(Token { kind: TokenKind::Keyword(Keyword::Nullable), offset })) => (
                2u8,
                offset,
            ),
            _ => (0u8, 0usize),
        };
        if which.0 == 0 {
            return Ok(Column { name, column_type, constraints });
        }
        let _ = self.lexer.next();
        if which.0 == 1 {
            match self.lexer.expect_token(TokenKind::Keyword(Keyword::Key)) {
                Ok(()) => {},
                Err(e) => {
                    return Err(e);
                },
            }
            if has_primary {
                return Err(
                    SQLError::new(
                        SQLErrorKind::DuplicateConstraint {
                            column: name,
                            constraint: ColumnConstraint::PrimaryKey,
                        },
                        which.1,
                    ),
                );
            }
            let mut cs = constraints;
            cs.push(ColumnConstraint::PrimaryKey);
            self.constraints_rest(name, column_type, cs, true, has_nullable)
        } else {
            if has_nullable {
                return Err(
                    SQLError::new(
                        SQLErrorKind::DuplicateConstraint {
                            column: name,
                            constraint: ColumnConstraint::Nullable,
                        },
                        which.1,
                    ),
                );
            }
            let mut cs = constraints;
            cs.push(ColumnConstraint::Nullable);
            self.constraints_rest(name, column_type, cs, has_primary, true)
        }
    }

    /// Parses a comma-separated expression list: exactly [`sp_eli`].
    pub fn parse_expression_list(&mut self) -> (r: Result<ExpressionList, SQLError>)
        requires
            old(self).wf(),
        ensures
            final(self).wf(),
            final(self).psrc() == old(self).psrc(),
            final(self).spec_remaining() <= old(self).spec_remaining(),
            r is Ok ==> final(self).spec_remaining() < old(self).spec_remaining(),
            sp_eli(old(self).psrc(), old(self).st(), final(self).st(), r),
        decreases old(self).spec_remaining(), 4int,
    {
        let first = match self.expr_bp(0) {
            Ok(e) => e,
            Err(e) => {
                return Err(e);
            },
        };
        let mut items: Vec<Expression> = Vec::new();
        items.push(first);
        self.expr_list_rest(items)
    }

    /// Parses the remaining expressions of a list after `items`: exactly
    /// [`sp_eli_more`].
    fn expr_list_rest(&mut self, items: Vec<Expression>) -> (r: Result<ExpressionList, SQLError>)
        requires
            old(self).wf(),
        ensures
            final(self).wf(),
            final(self).psrc() == old(self).psrc(),
            final(self).spec_remaining() <= old(self).spec_remaining(),
            sp_eli_more(old(self).psrc(), old(self).st(), items@, final(self).st(), r),
        decreases old(self).spec_remaining(), 3int,
    {
        let is_comma = match self.peek_tok() {
            Some(Ok(Token { kind: TokenKind::Comma, .. })) => true,
            _ => false,
        };
        if !is_comma {
            return Ok(ExpressionList(items));
        }
        let _ = self.lexer.next();
        let item = match self.expr_bp(0) {
            Ok(e) => e,
            Err(e) => {
                return Err(e);
            },
        };
        let mut items2 = items;
        items2.push(item);
        self.expr_list_rest(items2)
    }

    /// Parses a comma-separated identifier list: exactly [`sp_idl`].
    pub fn parse_identifier_list(&mut self) -> (r: Result<IdentifierList, SQLError>)
        requires
            old(self).wf(),
        ensures
            final(self).wf(),
            final(self).psrc() == old(self).psrc(),
            final(self).spec_remaining() <= old(self).spec_remaining(),
            r is Ok ==> final(self).spec_remaining() < old(self).spec_remaining(),
            sp_idl(old(self).psrc(), old(self).st(), final(self).st(), r),
        decreases old(self).spec_remaining(), 4int,
    {
        let first = match self.parse_identifier() {
            Ok(id) => id,
            Err(e) => {
                return Err(e);
            },
        };
        let mut items: Vec<String> = Vec::new();
        items.push(first);
        self.ident_list_rest(items)
    }

    /// Parses the remaining identifiers of a list after `items`: exactly
    /// [`sp_idl_more`].
    fn ident_list_rest(&mut self, items: Vec<String>) -> (r: Result<IdentifierList, SQLError>)
        requires
            old(self).wf(),
        ensures
            final(self).wf(),
            final(self).psrc() == old(self).psrc(),
            final(self).spec_remaining() <= old(self).spec_remaining(),
            sp_idl_more(old(self).psrc(), old(self).st(), items@, final(self).st(), r),
        decreases old(self).spec_remaining(), 3int,
    {
        let is_comma = match self.peek_tok() {
            Some(Ok(Token { kind: TokenKind::Comma, .. })) => true,
            _ => false,
        };
        if !is_comma {
            return Ok(IdentifierList(items));
        }
        let _ = self.lexer.next();
        let item = match self.parse_identifier() {
            Ok(id) => id,
            Err(e) => {
                return Err(e);
            },
        };
        let mut items2 = items;
        items2.push(item);
        self.ident_list_rest(items2)
    }

    /// Parses one identifier token: exactly [`sp_ident`].
    pub fn parse_identifier(&mut self) -> (r: Result<String, SQLError>)
        requires
            old(self).wf(),
        ensures
            final(self).wf(),
            final(self).psrc() == old(self).psrc(),
            final(self).spec_remaining() <= old(self).spec_remaining(),
            r is Ok ==> final(self).spec_remaining() < old(self).spec_remaining(),
            sp_ident(old(self).psrc(), old(self).st(), final(self).st(), r),
        decreases old(self).spec_remaining(), 2int,
    {
        match self.lexer.next() {
            None => Err(SQLError::new(SQLErrorKind::UnexpectedEnd, self.lexer.position())),
            Some(Err(e)) => Err(e),
            Some(Ok(Token { kind: TokenKind::Identifier(id), .. })) => Ok(id),
            Some(Ok(Token { kind, .. })) => {
                proof {
                    lemma_kind_eqv_refl(kind);
                }
                Err(
                    SQLError::new(
                        SQLErrorKind::ExpectedIdentifier { got: kind },
                        self.lexer.position(),
                    ),
                )
            },
        }
    }

    /// Parses a non-negative 32-bit integer literal, as `LIMIT` and
    /// `OFFSET` require: exactly [`sp_nonneg`].
    pub fn parse_non_negative_integer(&mut self) -> (r: Result<Option<u32>, SQLError>)
        requires
            old(self).wf(),
        ensures
            final(self).wf(),
            final(self).psrc() == old(self).psrc(),
            final(self).spec_remaining() <= old(self).spec_remaining(),
            r is Ok ==> final(self).spec_remaining() < old(self).spec_remaining(),
            sp_nonneg(old(self).psrc(), old(self).st(), final(self).st(), r),
        decreases old(self).spec_remaining(), 2int,
    {
        let tok = match self.lexer.next() {
            None => {
                return Err(SQLError::new(SQLErrorKind::UnexpectedEnd, self.lexer.position()));
            },
            Some(Err(e)) => {
                return Err(e);
            },
            Some(Ok(t)) => t,
        };
        match tok.kind {
            TokenKind::Number(crate::token::NumberKind::Integer(num)) => {
                if num >= 0 {
                    Ok(Some(num as u32))
                } else {
                    Ok(None)
                }
            },
            TokenKind::Minus => {
                match self.lexer.next() {
                    Some(
                        Ok(
                            Token {
                                kind: TokenKind::Number(crate::token::NumberKind::Integer(num)),
                                ..
                            },
                        ),
                    ) => {
                        let got = if num > i32::MIN + 1 {
                            -num
                        } else {
                            i32::MIN + 1
                        };
                        Err(
                            SQLError::new(
                                SQLErrorKind::ExpectedNonNegativeInteger { got },
                                tok.offset,
                            ),
                        )
                    },
                    _ => Err(SQLError::new(SQLErrorKind::Other(TokenKind::Minus), tok.offset)),
                }
            },
            other => Err(SQLError::new(SQLErrorKind::ExpectedInteger { got: other }, tok.offset)),
        }
    }

    /// Parses an expression from the whole remaining input: exactly
    /// [`sp_expr`] at the lowest binding power.
    pub fn expr(self) -> (r: Result<Expression, SQLError>)
        requires
            self.wf(),
        ensures
            exists|b: LexState| #[trigger] sp_expr(self.psrc(), self.st(), 0u8, b, r),
    {
        let ghost src = self.psrc();
        let ghost a0 = self.st();
        let mut parser = self;
        let r = parser.expr_bp(0);
        proof {
            assert(sp_expr(src, a0, 0u8, parser.st(), r));
        }
        r
    }

    /// Parses the operand of a prefix operator token and applies it:
    /// exactly [`sp_prefix`] for a token that spells a prefix operator;
    /// `InvalidPrefixOperator` for an infix-only operator and
    /// `InvalidOperator` for anything else, both at the token's offset and
    /// consuming nothing.
    pub fn parse_unary_op(&mut self, tok: Token) -> (r: Result<Expression, SQLError>)
        requires
            old(self).wf(),
        ensures
            final(self).wf(),
            final(self).psrc() == old(self).psrc(),
            final(self).spec_remaining() <= old(self).spec_remaining(),
            match crate::ast::spec_op_of_token(tok.kind) {
                None => (r matches Err(e) && e.pos == tok.offset && (e.kind matches
                    SQLErrorKind::InvalidOperator { op } && crate::lexer::spec_kind_eqv(
                    op,
                    tok.kind,
                ))) && *final(self) == *old(self),
                Some(op) => match crate::ast::spec_prefix_binding_power(op) {
                    None => (r matches Err(e) && e.pos == tok.offset && (e.kind matches
                        SQLErrorKind::InvalidPrefixOperator { op: k } && k == tok.kind))
                        && *final(self) == *old(self),
                    Some(_) => sp_prefix(old(self).psrc(), old(self).st(), op, final(self).st(), r),
                },
            },
            sp_wit(final(self).st(), r),
        decreases old(self).spec_remaining(), 1int,
    {
        let ghost src = self.psrc();
        let ghost a0 = self.st();
        let op = match Op::try_from_token(&tok) {
            Ok(op) => op,
            Err(e) => {
                return Err(e);
            },
        };
        let r_bp = match op.prefix_binding_power() {
            Some(bp) => bp,
            None => {
                return Err(
                    SQLError::new(
                        SQLErrorKind::InvalidPrefixOperator { op: tok.kind },
                        tok.offset,
                    ),
                );
            },
        };
        let rhs_r = self.expr_bp(r_bp);
        let ghost rhs_g = rhs_r;
        proof {
            assert(sp_expr(
                src,
                a0,
                crate::ast::spec_prefix_binding_power(op).unwrap(),
                self.st(),
                rhs_g,
            ));
        }
        let rhs = match rhs_r {
            Ok(e) => e,
            Err(e) => {
                return Err(e);
            },
        };
        Ok(Expression::UnaryOp((op, Box::new(rhs))))
    }

    /// Parses an aggregate application, the aggregate keyword already
    /// consumed: exactly [`sp_agg`].
    fn parse_aggregate_function(&mut self, agg: Aggregate) -> (r: Result<Expression, SQLError>)
        requires
            old(self).wf(),
        ensures
            final(self).wf(),
            final(self).psrc() == old(self).psrc(),
            final(self).spec_remaining() <= old(self).spec_remaining(),
            sp_agg(old(self).psrc(), old(self).st(), agg, final(self).st(), r),
            sp_wit(final(self).st(), r),
        decreases old(self).spec_remaining(), 1int,
    {
        match self.lexer.expect_token(TokenKind::LeftParen) {
            Ok(()) => {},
            Err(e) => {
                return Err(e);
            },
        }
        let expr = match self.expr_bp(0) {
            Ok(e) => e,
            Err(e) => {
                return Err(e);
            },
        };
        match self.lexer.expect_token(TokenKind::RightParen) {
            Ok(()) => {},
            Err(e) => {
                return Err(e);
            },
        }
        let kind = match agg {
            Aggregate::Count => AggregateFunctionKind::Count,
            Aggregate::Sum => AggregateFunctionKind::Sum,
            Aggregate::Avg => AggregateFunctionKind::Avg,
            Aggregate::StdDev => AggregateFunctionKind::StdDev,
            Aggregate::Min => AggregateFunctionKind::Min,
            Aggregate::Max => AggregateFunctionKind::Max,
        };
        Ok(Expression::AggregateFunction(AggregateFunction { kind, expr: Box::new(expr) }))
    }

    /// The precedence-climbing core: parses an atom, then folds infix
    /// operators whose left binding power reaches `min_bp`: exactly
    /// [`sp_expr`].
    fn expr_bp(&mut self, min_bp: u8) -> (r: Result<Expression, SQLError>)
        requires
            old(self).wf(),
        ensures
            final(self).wf(),
            final(self).psrc() == old(self).psrc(),
            final(self).spec_remaining() <= old(self).spec_remaining(),
            r is Ok ==> final(self).spec_remaining() < old(self).spec_remaining(),
            sp_expr(old(self).psrc(), old(self).st(), min_bp, final(self).st(), r),
            sp_wit(final(self).st(), r),
        decreases old(self).spec_remaining(), 0int,
    {
        let ghost src = self.psrc();
        let ghost a0 = self.st();
        let nx = self.lexer.next();
        let token = match nx {
            None => {
                return Err(SQLError::new(SQLErrorKind::UnexpectedEnd, self.lexer.position()));
            },
            Some(Err(e)) => {
                return Err(e);
            },
            Some(Ok(t)) => t,
        };
        let ghost m1 = self.st();
        let ghost tokg = token;
        let r: Result<Expression, SQLError> = match token.kind {
            TokenKind::String(lit) => self.fold_rest(
                Expression::Literal(Literal::String(lit)),
                min_bp,
            ),
            TokenKind::Number(num) => self.fold_rest(
                Expression::Literal(Literal::Number(num)),
                min_bp,
            ),
            TokenKind::Keyword(Keyword::True) => self.fold_rest(
                Expression::Literal(Literal::Boolean(true)),
                min_bp,
            ),
            TokenKind::Keyword(Keyword::False) => self.fold_rest(
                Expression::Literal(Literal::Boolean(false)),
                min_bp,
            ),
            TokenKind::Identifier(id) => self.fold_rest(Expression::Identifier(id), min_bp),
            TokenKind::Asterisk => self.fold_rest(Expression::Wildcard, min_bp),
            TokenKind::LeftParen => match self.expr_bp(0) {
                Err(_) => Err(SQLError::new(SQLErrorKind::UnclosedParenthesis, token.offset)),
                Ok(inner) => match self.lexer.expect_token(TokenKind::RightParen) {
                    Err(e) => Err(e),
                    Ok(()) => self.fold_rest(inner, min_bp),
                },
            },
            TokenKind::Minus => match self.parse_unary_op(
                Token { kind: TokenKind::Minus, offset: token.offset },
            ) {
                Ok(u) => self.fold_rest(u, min_bp),
                Err(e) => Err(e),
            },
            TokenKind::Keyword(Keyword::Not) => match self.parse_unary_op(
                Token { kind: TokenKind::Keyword(Keyword::Not), offset: token.offset },
            ) {
                Ok(u) => self.fold_rest(u, min_bp),
                Err(e) => Err(e),
            },
            TokenKind::Keyword(Keyword::Aggregate(agg)) => match self.parse_aggregate_function(
                agg,
            ) {
                Ok(u) => self.fold_rest(u, min_bp),
                Err(e) => Err(e),
            },
            other => Err(SQLError::new(SQLErrorKind::Other(other), token.offset)),
        };
        proof {
            assert(sp_atom(src, m1, tokg, min_bp, self.st(), r));
        }
        r
    }

    /// The infix fold around a finished left operand: exactly [`sp_fold`].
    fn fold_rest(&mut self, lhs: Expression, min_bp: u8) -> (r: Result<Expression, SQLError>)
        requires
            old(self).wf(),
        ensures
            final(self).wf(),
            final(self).psrc() == old(self).psrc(),
            final(self).spec_remaining() <= old(self).spec_remaining(),
            sp_fold(old(self).psrc(), old(self).st(), lhs, min_bp, final(self).st(), r),
            sp_wit(lhs, r),
            sp_wit(final(self).st(), r),
        decreases old(self).spec_remaining(), 0int,
    {
        let ghost src = self.psrc();
        let ghost s0 = self.st();
        let ghost lhs0 = lhs;
        let pk = self.peek_tok();
        let ghost pkg = pk;
        let ghost mstrip = spec_strip(self.st());
        let ghost tpk = self.spec_lexer().spec_peeked();
        let peeked = match pk {
            Some(Ok(tk)) => tk,
            _ => {
                return Ok(lhs);
            },
        };
        let stop = match &peeked.kind {
            TokenKind::Comma | TokenKind::RightParen | TokenKind::Semicolon => true,
            TokenKind::Keyword(Keyword::From) | TokenKind::Keyword(Keyword::Where)
                | TokenKind::Keyword(Keyword::Order) | TokenKind::Keyword(Keyword::Desc)
                | TokenKind::Keyword(Keyword::Asc) | TokenKind::Keyword(Keyword::Limit)
                | TokenKind::Keyword(Keyword::Offset) => true,
            _ => false,
        };
        if stop {
            return Ok(lhs);
        }
        let op = match Op::try_from_token(&peeked) {
            Ok(op) => op,
            Err(e) => {
                proof {
                    let bt = self.spec_lexer().spec_peeked();
                    let eg = e;
                    match (pkg, bt) {
                        (Some(Ok(a)), Some(Ok(b2))) => {
                            match eg.kind {
                                SQLErrorKind::InvalidOperator { op: k } => {
                                    lemma_kind_eqv_trans(k, a.kind, b2.kind);
                                },
                                _ => {},
                            }
                        },
                        _ => {},
                    }
                }
                return Err(e);
            },
        };
        let bp = match op.infix_binding_power() {
            Some(p) => p,
            None => {
                proof {
                    lemma_kind_eqv_refl(peeked.kind);
                    let bt = self.spec_lexer().spec_peeked();
                    match (pkg, bt) {
                        (Some(Ok(a)), Some(Ok(b2))) => {
                            lemma_kind_eqv_trans(peeked.kind, a.kind, b2.kind);
                        },
                        _ => {},
                    }
                }
                return Err(
                    SQLError::new(
                        SQLErrorKind::InvalidOperator { op: peeked.kind },
                        peeked.offset,
                    ),
                );
            },
        };
        if bp.0 < min_bp {
            return Ok(lhs);
        }
        let _ = self.lexer.next();
        proof {
            assert(self.st() == mstrip);
        }
        let rr = self.expr_bp(bp.1);
        let ghost rrg = rr;
        proof {
            assert(sp_expr(src, mstrip, bp.1, self.st(), rrg));
        }
        let rhs = match rr {
            Ok(e) => e,
            Err(e) => {
                let r = Err(e);
                proof {
                    assert(sp_fold(src, s0, lhs0, min_bp, self.st(), r));
                }
                return r;
            },
        };
        let ghost rhsg = rhs;
        let ghost s3 = self.st();
        let folded = Expression::BinaryOp((Box::new(lhs), op, Box::new(rhs)));
        let ghost foldedg = folded;
        let r = self.fold_rest(folded, min_bp);
        proof {
            assert(foldedg matches Expression::BinaryOp(p) && *p.0 == lhs0 && p.1 == op && *p.2
                == rhsg);
        }
        r
    }
}

} // verus!

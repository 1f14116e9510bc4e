//! The SQL lexer: a UTF-8 tolerant tokenizer with one-token lookahead,
//! skipping whitespace, `--` line comments, and `/* ... */` block comments.

use vstd::prelude::*;

use crate::sql_error::{SQLError, SQLErrorKind};
use crate::token::{Aggregate, Keyword, NumberKind, Token, TokenKind};

verus! {

/// Whether `c` is a Unicode alphabetic character, as `char::is_alphabetic`
/// decides it: a pure function of the character.
pub uninterp spec fn char_is_alphabetic(c: char) -> bool;

/// Relies on `char::is_alphabetic`: a deterministic per-character Unicode
/// property lookup.
#[verifier::external_body]
fn is_alphabetic_char(c: char) -> (r: bool)
    ensures
        r == char_is_alphabetic(c),
{
    c.is_alphabetic()
}

/// Whether `c` is Unicode whitespace, as `char::is_whitespace` decides it:
/// a pure function of the character.
pub uninterp spec fn char_is_whitespace(c: char) -> bool;

/// Relies on `char::is_whitespace`: a deterministic per-character Unicode
/// property lookup.
#[verifier::external_body]
fn is_whitespace_char(c: char) -> (r: bool)
    ensures
        r == char_is_whitespace(c),
{
    c.is_whitespace()
}

/// Relies on `String::from_iter` over `char`: collects exactly the given
/// characters into a string.
#[verifier::external_body]
fn chars_to_string(chars: &Vec<char>) -> (r: String)
    ensures
        r@ == chars@,
{
    chars.iter().collect()
}

/// Relies on `str::chars`: yields exactly the string's characters; a vector
/// of `char` occupies four bytes per element, so its length is at most a
/// quarter of the address space.
#[verifier::external_body]
fn str_chars(s: &str) -> (r: Vec<char>)
    ensures
        r@ == s@,
        r@.len() * 4 <= usize::MAX,
{
    s.chars().collect()
}

/// The UTF-8 width of a character, from its scalar value.
pub open spec fn spec_char_width(c: char) -> int {
    if (c as u32) < 0x80 {
        1
    } else if (c as u32) < 0x800 {
        2
    } else if (c as u32) < 0x10000 {
        3
    } else {
        4
    }
}

/// Returns the number of UTF-8 bytes `c` occupies.
fn char_width(c: char) -> (w: usize)
    ensures
        w == spec_char_width(c),
        1 <= w <= 4,
{
    let u = c as u32;
    if u < 0x80 {
        1
    } else if u < 0x800 {
        2
    } else if u < 0x10000 {
        3
    } else {
        4
    }
}

/// The UTF-8 byte length of a character sequence: every token offset is
/// this sum over the characters before it.
pub open spec fn spec_width_sum(s: Seq<char>) -> int
    decreases s.len(),
{
    if s.len() == 0 {
        0
    } else {
        spec_width_sum(s.drop_last()) + spec_char_width(s.last())
    }
}

/// The index just past the next newline at or after `i`, or the input's
/// end: where a `--` line comment ends.
pub open spec fn spec_past_newline(src: Seq<char>, i: int) -> int
    decreases src.len() - i,
{
    if i < 0 || i >= src.len() {
        src.len() as int
    } else if src[i] == '\n' {
        i + 1
    } else {
        spec_past_newline(src, i + 1)
    }
}

/// The index just past the next block-comment terminator at or after `i`,
/// or the input's end: where a `/* ... */` comment ends.
pub open spec fn spec_past_block_end(src: Seq<char>, i: int) -> int
    decreases src.len() - i,
{
    if i < 0 || i >= src.len() {
        src.len() as int
    } else if i + 1 < src.len() && src[i] == '*' && src[i + 1] == '/' {
        i + 2
    } else {
        spec_past_block_end(src, i + 1)
    }
}

/// A comment scan lands at or after where it started, inside the input.
pub proof fn lemma_scan_bounds(src: Seq<char>, i: int)
    requires
        0 <= i <= src.len(),
    ensures
        i <= spec_past_newline(src, i) <= src.len(),
        i <= spec_past_block_end(src, i) <= src.len(),
    decreases src.len() - i,
{
    if i < src.len() {
        lemma_scan_bounds(src, i + 1);
    }
}

/// Where the next token starts: the index after the maximal run of
/// whitespace, `--` line comments, and `/* ... */` block comments.
pub open spec fn spec_skip(src: Seq<char>, i: int) -> int
    decreases src.len() - i,
    via spec_skip_dec
{
    if i < 0 || i >= src.len() {
        i
    } else if char_is_whitespace(src[i]) {
        spec_skip(src, i + 1)
    } else if i + 1 < src.len() && src[i] == '-' && src[i + 1] == '-' {
        spec_skip(src, spec_past_newline(src, i + 2))
    } else if i + 1 < src.len() && src[i] == '/' && src[i + 1] == '*' {
        spec_skip(src, spec_past_block_end(src, i + 2))
    } else {
        i
    }
}

#[via_fn]
proof fn spec_skip_dec(src: Seq<char>, i: int) {
    if 0 <= i && i < src.len() {
        if i + 2 <= src.len() {
            lemma_scan_bounds(src, i + 2);
        }
    }
}

/// Skipping lands at or after where it started, inside the input, on a
/// position where no whitespace or comment can start.
pub proof fn lemma_skip_bounds(src: Seq<char>, i: int)
    requires
        0 <= i <= src.len(),
    ensures
        i <= spec_skip(src, i) <= src.len(),
    decreases src.len() - i,
{
    if i < src.len() {
        if char_is_whitespace(src[i]) {
            lemma_skip_bounds(src, i + 1);
        } else if i + 1 < src.len() && src[i] == '-' && src[i + 1] == '-' {
            lemma_scan_bounds(src, i + 2);
            lemma_skip_bounds(src, spec_past_newline(src, i + 2));
        } else if i + 1 < src.len() && src[i] == '/' && src[i + 1] == '*' {
            lemma_scan_bounds(src, i + 2);
            lemma_skip_bounds(src, spec_past_block_end(src, i + 2));
        }
    }
}

/// Whether `c` is an ASCII decimal digit.
pub open spec fn spec_is_digit(c: char) -> bool {
    48 <= (c as u32) <= 57
}

/// The numeric value of an ASCII digit.
pub open spec fn spec_digit_val(c: char) -> int {
    (c as u32) - 48
}

/// The decimal value of a digit sequence.
pub open spec fn spec_dec_val(s: Seq<char>) -> int
    decreases s.len(),
{
    if s.len() == 0 {
        0
    } else {
        spec_dec_val(s.drop_last()) * 10 + spec_digit_val(s.last())
    }
}

/// Whether `c` can continue a numeric literal: a digit or a dot.
pub open spec fn spec_is_number_char(c: char) -> bool {
    spec_is_digit(c) || c == '.'
}

/// Whether `c` can continue an identifier or keyword.
pub open spec fn spec_is_word_char(c: char) -> bool {
    char_is_alphabetic(c) || c == '_'
}

/// How many dots a literal holds.
pub open spec fn spec_dot_count(s: Seq<char>) -> int
    decreases s.len(),
{
    if s.len() == 0 {
        0
    } else {
        spec_dot_count(s.drop_last()) + if s.last() == '.' {
            1int
        } else {
            0int
        }
    }
}

/// Digit-sequence values never shrink as digits are appended.
proof fn lemma_dec_val_monotone(s: Seq<char>, n: int)
    requires
        0 <= n <= s.len(),
        forall|j: int| 0 <= j < s.len() ==> spec_is_digit(#[trigger] s[j]),
    ensures
        0 <= spec_dec_val(s.take(n)) <= spec_dec_val(s),
    decreases s.len() - n,
{
    if n == s.len() {
        assert(s.take(n) =~= s);
        lemma_dec_val_nonneg(s);
    } else {
        lemma_dec_val_monotone(s, n + 1);
        lemma_dec_val_nonneg(s.take(n));
        assert(s.take(n + 1).drop_last() =~= s.take(n));
        assert(spec_dec_val(s.take(n + 1)) == spec_dec_val(s.take(n)) * 10 + spec_digit_val(
            s.take(n + 1).last(),
        ));
        assert(spec_is_digit(s[n]));
        assert(spec_dec_val(s.take(n)) <= spec_dec_val(s.take(n)) * 10) by (nonlinear_arith)
            requires
                spec_dec_val(s.take(n)) >= 0,
        ;
    }
}

/// Digit-sequence values are non-negative.
proof fn lemma_dec_val_nonneg(s: Seq<char>)
    requires
        forall|j: int| 0 <= j < s.len() ==> spec_is_digit(#[trigger] s[j]),
    ensures
        spec_dec_val(s) >= 0,
    decreases s.len(),
{
    if s.len() > 0 {
        assert(forall|j: int|
            0 <= j < s.drop_last().len() ==> spec_is_digit(#[trigger] s.drop_last()[j]));
        lemma_dec_val_nonneg(s.drop_last());
        assert(spec_is_digit(s.last()));
        assert(spec_dec_val(s.drop_last()) * 10 >= 0) by (nonlinear_arith)
            requires
                spec_dec_val(s.drop_last()) >= 0,
        ;
    }
}

/// Parses an all-digit sequence as a signed 32-bit integer: succeeds
/// exactly when the characters are one or more decimal digits whose value
/// fits, and then returns that value.
fn parse_i32_digits(chars: &Vec<char>) -> (r: Option<i32>)
    ensures
        r is Some <==> chars@.len() >= 1 && (forall|j: int|
            0 <= j < chars@.len() ==> spec_is_digit(#[trigger] chars@[j])) && spec_dec_val(chars@)
            <= i32::MAX,
        r matches Some(v) ==> v == spec_dec_val(chars@),
{
    if chars.len() == 0 {
        return None;
    }
    let mut acc: i32 = 0;
    let mut j: usize = 0;
    let n = chars.len();
    while j < n
        invariant
            n == chars@.len(),
            0 <= j <= n,
            forall|k: int| 0 <= k < j ==> spec_is_digit(#[trigger] chars@[k]),
            acc == spec_dec_val(chars@.take(j as int)),
            0 <= acc,
        decreases n - j,
    {
        let c = chars[j];
        let u = c as u32;
        if !(48 <= u && u <= 57) {
            return None;
        }
        let d = (u - 48) as i32;
        if acc > (i32::MAX - d) / 10 {
            proof {
                assert(chars@.take(j + 1).drop_last() =~= chars@.take(j as int));
                assert(spec_dec_val(chars@.take(j + 1)) == acc * 10 + d);
                assert(acc * 10 + d > i32::MAX) by (nonlinear_arith)
                    requires
                        acc > (i32::MAX - d) / 10,
                        0 <= d <= 9,
                        acc >= 0,
                ;
                assert forall|k: int| 0 <= k < chars@.len() implies spec_is_digit(
                    #[trigger] chars@[k],
                ) || !(forall|k2: int|
                    0 <= k2 < chars@.len() ==> spec_is_digit(#[trigger] chars@[k2])) by {}
                if forall|k: int| 0 <= k < chars@.len() ==> spec_is_digit(#[trigger] chars@[k]) {
                    lemma_dec_val_monotone(chars@, j + 1);
                }
            }
            return None;
        }
        proof {
            assert(chars@.take(j + 1).drop_last() =~= chars@.take(j as int));
            assert(acc * 10 + d <= i32::MAX) by (nonlinear_arith)
                requires
                    acc <= (i32::MAX - d) / 10,
                    0 <= d <= 9,
                    acc >= 0,
            ;
            assert(acc * 10 >= 0) by (nonlinear_arith)
                requires
                    acc >= 0,
            ;
        }
        acc = acc * 10 + d;
        j = j + 1;
    }
    proof {
        assert(chars@.take(n as int) =~= chars@);
    }
    Some(acc)
}

/// The successful token `kind` at byte offset `at`: the shape every
/// punctuation case of the dispatch returns.
pub open spec fn spec_punct(kind: TokenKind, at: int) -> Result<Token, SQLError> {
    Ok(Token { kind, offset: at as usize })
}

/// A literal with a dot in it is not all digits.
proof fn lemma_dots_means_not_all_digits(s: Seq<char>)
    requires
        spec_dot_count(s) >= 1,
    ensures
        !(forall|k: int| 0 <= k < s.len() ==> spec_is_digit(#[trigger] s[k])),
    decreases s.len(),
{
    if s.len() > 0 {
        if s.last() == '.' {
            assert(!spec_is_digit(s.last()));
        } else {
            lemma_dots_means_not_all_digits(s.drop_last());
            let w = choose|w: int|
                0 <= w < s.drop_last().len() && !spec_is_digit(#[trigger] s.drop_last()[w]);
            assert(s[w] == s.drop_last()[w]);
            assert(!spec_is_digit(s[w]));
        }
    }
}

/// Everything [`Lexer::dispatch_token`] promises about the token read at
/// character index `i0` and byte offset `c_at`, over the source, the final
/// cursor `i1`, the final byte position `pos1`, and the result: the full
/// case analysis on the character under the cursor.
pub open spec fn spec_dispatch_post(
    src: Seq<char>,
    i0: int,
    c_at: int,
    i1: int,
    pos1: int,
    r: Result<Token, SQLError>,
) -> bool {
    {

                let c = src[i0];
                let two = i0 + 1 < src.len() && src[i0 + 1] == '=';
                &&& spec_is_digit(c) ==> {
                    // the maximal digit-and-dot run, then the numeric cases
                    &&& forall|k: int|
                        i0 <= k < i1 ==> spec_is_number_char(#[trigger] src[k])
                    &&& i1 == src.len() || !spec_is_number_char(src[i1])
                    &&& ({
                        let lit = src.subrange(i0, i1);
                        if (forall|k: int| 0 <= k < lit.len() ==> spec_is_digit(#[trigger] lit[k]))
                            && spec_dec_val(lit) <= i32::MAX {
                            r == Ok::<Token, SQLError>(
                                Token {
                                    kind: TokenKind::Number(
                                        NumberKind::Integer(spec_dec_val(lit) as i32),
                                    ),
                                    offset: c_at as usize,
                                },
                            )
                        } else if spec_dot_count(lit) <= 1 {
                            match r {
                                Ok(t) => t.offset == c_at && match t.kind {
                                    TokenKind::Number(NumberKind::Float(text)) => text@ == lit,
                                    _ => false,
                                },
                                Err(_) => false,
                            }
                        } else {
                            r == Err::<Token, SQLError>(
                                SQLError {
                                    kind: SQLErrorKind::InvalidNumber,
                                    pos: c_at as usize,
                                },
                            )
                        }
                    })
                }
                &&& !spec_is_digit(c) && (c == '"' || c == '\'') ==> {
                    &&& (r matches Ok(t) ==> ({
                        let j = i1 - 1;
                        &&& i0 + 1 <= j < src.len()
                        &&& src[j] == c
                        &&& forall|k: int| i0 + 1 <= k < j ==> #[trigger] src[k] != c
                        &&& t.offset == c_at
                        &&& match t.kind {
                            TokenKind::String(text) => text@ == src.subrange(i0 + 1, j),
                            _ => false,
                        }
                    }))
                    &&& (r matches Err(e) ==> e == (SQLError {
                        kind: SQLErrorKind::UnterminatedString,
                        pos: c_at as usize,
                    }) && i1 == src.len() && forall|k: int|
                        i0 + 1 <= k < src.len() ==> #[trigger] src[k] != c)
                }
                &&& !spec_is_digit(c) && c != '"' && c != '\'' && char_is_alphabetic(c) ==> {
                    // the maximal word run; keywords by table, else the
                    // identifier spelled as in the source
                    &&& forall|k: int| i0 < k < i1 ==> spec_is_word_char(#[trigger] src[k])
                    &&& i1 == src.len() || !spec_is_word_char(src[i1])
                    &&& match r {
                        Ok(t) => t.offset == c_at && match t.kind {
                            TokenKind::Identifier(text) => text@ == src.subrange(i0, i1)
                                && spec_keyword_of(src.subrange(i0, i1)) is None,
                            TokenKind::Keyword(kw) => spec_keyword_of(src.subrange(i0, i1))
                                == Some(kw),
                            _ => false,
                        },
                        Err(_) => false,
                    }
                }
                &&& !spec_is_digit(c) && c != '"' && c != '\'' && !char_is_alphabetic(c) ==> {
                    &&& c == '(' ==> r == spec_punct(TokenKind::LeftParen, c_at) && i1 == i0 + 1
                    &&& c == ')' ==> r == spec_punct(TokenKind::RightParen, c_at) && i1 == i0 + 1
                    &&& c == '+' ==> r == spec_punct(TokenKind::Plus, c_at) && i1 == i0 + 1
                    &&& c == '-' ==> r == spec_punct(TokenKind::Minus, c_at) && i1 == i0 + 1
                    &&& c == '*' ==> r == spec_punct(TokenKind::Asterisk, c_at) && i1 == i0 + 1
                    &&& c == '/' ==> r == spec_punct(TokenKind::Slash, c_at) && i1 == i0 + 1
                    &&& c == ',' ==> r == spec_punct(TokenKind::Comma, c_at) && i1 == i0 + 1
                    &&& c == ';' ==> r == spec_punct(TokenKind::Semicolon, c_at) && i1 == i0 + 1
                    &&& c == '<' ==> r == spec_punct(
                        if two {
                            TokenKind::LessThanOrEqual
                        } else {
                            TokenKind::LessThan
                        },
                        c_at,
                    ) && i1 == i0 + (if two {
                        2int
                    } else {
                        1int
                    })
                    &&& c == '>' ==> r == spec_punct(
                        if two {
                            TokenKind::GreaterThanOrEqual
                        } else {
                            TokenKind::GreaterThan
                        },
                        c_at,
                    ) && i1 == i0 + (if two {
                        2int
                    } else {
                        1int
                    })
                    &&& c == '=' ==> r == spec_punct(
                        if two {
                            TokenKind::EqualsEquals
                        } else {
                            TokenKind::Equals
                        },
                        c_at,
                    ) && i1 == i0 + (if two {
                        2int
                    } else {
                        1int
                    })
                    &&& c == '!' && two ==> r == spec_punct(TokenKind::NotEquals, c_at) && i1 == i0
                        + 2
                    &&& c == '!' && !two ==> r == Err::<Token, SQLError>(
                        SQLError {
                            kind: SQLErrorKind::InvalidCharacter { c: '!' },
                            pos: pos1 as usize,
                        },
                    ) && i1 == i0 + 1
                    &&& !(c == '(' || c == ')' || c == '+' || c == '-' || c == '*' || c == '/'
                        || c == ',' || c == ';' || c == '<' || c == '>' || c == '=' || c == '!')
                        ==> r == Err::<Token, SQLError>(
                        SQLError {
                            kind: SQLErrorKind::InvalidCharacter { c },
                            pos: pos1 as usize,
                        },
                    ) && i1 == i0 + 1
                }
    }
}

/// View-level equality of token kinds: equal variants with equal payload
/// contents (string payloads compared by their characters).
pub open spec fn spec_kind_eqv(a: TokenKind, b: TokenKind) -> bool {
    match (a, b) {
        (TokenKind::String(x), TokenKind::String(y)) => x@ == y@,
        (TokenKind::Identifier(x), TokenKind::Identifier(y)) => x@ == y@,
        (TokenKind::Keyword(x), TokenKind::Keyword(y)) => x == y,
        (
            TokenKind::Number(NumberKind::Integer(x)),
            TokenKind::Number(NumberKind::Integer(y)),
        ) => x == y,
        (TokenKind::Number(NumberKind::Float(x)), TokenKind::Number(NumberKind::Float(y))) => x@
            == y@,
        (TokenKind::LeftParen, TokenKind::LeftParen) => true,
        (TokenKind::RightParen, TokenKind::RightParen) => true,
        (TokenKind::Plus, TokenKind::Plus) => true,
        (TokenKind::Minus, TokenKind::Minus) => true,
        (TokenKind::Equals, TokenKind::Equals) => true,
        (TokenKind::NotEquals, TokenKind::NotEquals) => true,
        (TokenKind::EqualsEquals, TokenKind::EqualsEquals) => true,
        (TokenKind::LessThan, TokenKind::LessThan) => true,
        (TokenKind::GreaterThan, TokenKind::GreaterThan) => true,
        (TokenKind::LessThanOrEqual, TokenKind::LessThanOrEqual) => true,
        (TokenKind::GreaterThanOrEqual, TokenKind::GreaterThanOrEqual) => true,
        (TokenKind::Asterisk, TokenKind::Asterisk) => true,
        (TokenKind::Comma, TokenKind::Comma) => true,
        (TokenKind::Semicolon, TokenKind::Semicolon) => true,
        (TokenKind::Slash, TokenKind::Slash) => true,
        _ => false,
    }
}

/// View-level equality of tokens: same offset, equivalent kinds.
pub open spec fn spec_token_eqv(a: Token, b: Token) -> bool {
    a.offset == b.offset && spec_kind_eqv(a.kind, b.kind)
}

/// View-level equality of errors: same position, equal kinds with
/// equivalent payloads.
pub open spec fn spec_err_eqv(a: SQLError, b: SQLError) -> bool {
    a.pos == b.pos && match (a.kind, b.kind) {
        (SQLErrorKind::ExpectedExpression, SQLErrorKind::ExpectedExpression) => true,
        (SQLErrorKind::ExpectedCommaOrSemicolon, SQLErrorKind::ExpectedCommaOrSemicolon) => true,
        (
            SQLErrorKind::ExpectedIdentifier { got: x },
            SQLErrorKind::ExpectedIdentifier { got: y },
        ) => spec_kind_eqv(x, y),
        (SQLErrorKind::ExpectedInteger { got: x }, SQLErrorKind::ExpectedInteger { got: y }) =>
            spec_kind_eqv(x, y),
        (
            SQLErrorKind::ExpectedNonNegativeInteger { got: x },
            SQLErrorKind::ExpectedNonNegativeInteger { got: y },
        ) => x == y,
        (SQLErrorKind::InvalidCharacter { c: x }, SQLErrorKind::InvalidCharacter { c: y }) => x
            == y,
        (SQLErrorKind::InvalidNumber, SQLErrorKind::InvalidNumber) => true,
        (SQLErrorKind::InvalidOperator { op: x }, SQLErrorKind::InvalidOperator { op: y }) =>
            spec_kind_eqv(x, y),
        (
            SQLErrorKind::InvalidPrefixOperator { op: x },
            SQLErrorKind::InvalidPrefixOperator { op: y },
        ) => spec_kind_eqv(x, y),
        (SQLErrorKind::InvalidDataType { got: x }, SQLErrorKind::InvalidDataType { got: y }) =>
            spec_kind_eqv(x, y),
        (SQLErrorKind::Other(x), SQLErrorKind::Other(y)) => spec_kind_eqv(x, y),
        (SQLErrorKind::UnclosedParenthesis, SQLErrorKind::UnclosedParenthesis) => true,
        (SQLErrorKind::UnexpectedEnd, SQLErrorKind::UnexpectedEnd) => true,
        (
            SQLErrorKind::UnexpectedTokenKind { expected: xe, got: xg },
            SQLErrorKind::UnexpectedTokenKind { expected: ye, got: yg },
        ) => spec_kind_eqv(xe, ye) && spec_kind_eqv(xg, yg),
        (SQLErrorKind::UnterminatedStatement, SQLErrorKind::UnterminatedStatement) => true,
        (SQLErrorKind::UnterminatedString, SQLErrorKind::UnterminatedString) => true,
        (
            SQLErrorKind::DuplicateConstraint { column: xc, constraint: xk },
            SQLErrorKind::DuplicateConstraint { column: yc, constraint: yk },
        ) => xc@ == yc@ && xk == yk,
        _ => false,
    }
}

/// The observable state of a lexer: its character cursor, its byte
/// position, and its buffered lookahead. The parser's contracts chain
/// token reads over these states, so that every parse result is pinned
/// against the source.
pub ghost struct LexState {
    /// Characters consumed so far.
    pub i: int,
    /// The byte position, the UTF-8 length of the consumed characters.
    pub pos: int,
    /// The buffered lookahead, if any.
    pub peeked: Option<Result<Token, SQLError>>,
}

/// The remaining input at a state: unconsumed characters plus the
/// buffered token, the measure every token read strictly shrinks.
pub open spec fn st_rem(src: Seq<char>, a: LexState) -> int {
    src.len() - a.i + (if a.peeked is Some {
        1int
    } else {
        0int
    })
}

/// What one token read does, from state `a` to state `b` over the source:
/// a buffered token is handed out as it is; otherwise whitespace and
/// comments are skipped and [`spec_dispatch_post`] fixes the token read at
/// the skip position; `None` exactly at the end of input. The read leaves
/// nothing buffered and strictly shrinks the remaining input whenever it
/// yields a token.
pub open spec fn spec_read(
    src: Seq<char>,
    a: LexState,
    b: LexState,
    r: Option<Result<Token, SQLError>>,
) -> bool {
    &&& b.peeked is None
    &&& 0 <= b.i <= src.len()
    &&& r is Some ==> st_rem(src, b) < st_rem(src, a)
    &&& r is None ==> st_rem(src, b) <= st_rem(src, a)
    &&& match a.peeked {
        Some(t) => r == Some(t) && b.i == a.i && b.pos == a.pos,
        None => {
            let j = spec_skip(src, a.i);
            &&& (r is None <==> j == src.len())
            &&& (r matches Some(t) ==> spec_dispatch_post(
                src,
                j,
                spec_width_sum(src.take(j)),
                b.i,
                b.pos,
                t,
            ))
            &&& (r is None ==> b.i == j && b.pos == spec_width_sum(src.take(j)))
        },
    }
}

/// The state `m` with `t` buffered: where a peek that read `t` from a
/// state stripping to `m` leaves the lexer.
pub open spec fn st_keep(m: LexState, t: Option<Result<Token, SQLError>>) -> LexState {
    LexState { i: m.i, pos: m.pos, peeked: t }
}

/// The state `a` with nothing buffered: where consuming a buffered token
/// leaves the lexer.
pub open spec fn spec_strip(a: LexState) -> LexState {
    LexState { i: a.i, pos: a.pos, peeked: None }
}

/// Reading from a state with a buffered token yields that token and the
/// stripped state: the buffered half of [`spec_read`], as a lemma.
pub proof fn lemma_read_buffered(lx: Lexer)
    requires
        lx.wf(),
        lx.spec_peeked() is Some,
    ensures
        spec_read(lx.spec_src(), lx.st(), spec_strip(lx.st()), lx.spec_peeked()),
{
}

/// Copies a token kind, the string payloads character for character.
pub(crate) fn copy_kind(k: &TokenKind) -> (r: TokenKind)
    ensures
        spec_kind_eqv(r, *k),
{
    match k {
        TokenKind::String(x) => TokenKind::String(x.as_str().to_owned()),
        TokenKind::Identifier(x) => TokenKind::Identifier(x.as_str().to_owned()),
        TokenKind::Keyword(x) => TokenKind::Keyword(*x),
        TokenKind::Number(NumberKind::Integer(x)) => TokenKind::Number(NumberKind::Integer(*x)),
        TokenKind::Number(NumberKind::Float(x)) => TokenKind::Number(
            NumberKind::Float(x.as_str().to_owned()),
        ),
        TokenKind::LeftParen => TokenKind::LeftParen,
        TokenKind::RightParen => TokenKind::RightParen,
        TokenKind::Plus => TokenKind::Plus,
        TokenKind::Minus => TokenKind::Minus,
        TokenKind::Equals => TokenKind::Equals,
        TokenKind::NotEquals => TokenKind::NotEquals,
        TokenKind::EqualsEquals => TokenKind::EqualsEquals,
        TokenKind::LessThan => TokenKind::LessThan,
        TokenKind::GreaterThan => TokenKind::GreaterThan,
        TokenKind::LessThanOrEqual => TokenKind::LessThanOrEqual,
        TokenKind::GreaterThanOrEqual => TokenKind::GreaterThanOrEqual,
        TokenKind::Asterisk => TokenKind::Asterisk,
        TokenKind::Comma => TokenKind::Comma,
        TokenKind::Semicolon => TokenKind::Semicolon,
        TokenKind::Slash => TokenKind::Slash,
    }
}

/// Copies an error, its payloads character for character.
fn copy_err(e: &SQLError) -> (r: SQLError)
    ensures
        spec_err_eqv(r, *e),
{
    let kind = match &e.kind {
        SQLErrorKind::ExpectedExpression => SQLErrorKind::ExpectedExpression,
        SQLErrorKind::ExpectedCommaOrSemicolon => SQLErrorKind::ExpectedCommaOrSemicolon,
        SQLErrorKind::ExpectedIdentifier { got } => SQLErrorKind::ExpectedIdentifier {
            got: copy_kind(got),
        },
        SQLErrorKind::ExpectedInteger { got } => SQLErrorKind::ExpectedInteger {
            got: copy_kind(got),
        },
        SQLErrorKind::ExpectedNonNegativeInteger { got } =>
            SQLErrorKind::ExpectedNonNegativeInteger { got: *got },
        SQLErrorKind::InvalidCharacter { c } => SQLErrorKind::InvalidCharacter { c: *c },
        SQLErrorKind::InvalidNumber => SQLErrorKind::InvalidNumber,
        SQLErrorKind::InvalidOperator { op } => SQLErrorKind::InvalidOperator {
            op: copy_kind(op),
        },
        SQLErrorKind::InvalidPrefixOperator { op } => SQLErrorKind::InvalidPrefixOperator {
            op: copy_kind(op),
        },
        SQLErrorKind::InvalidDataType { got } => SQLErrorKind::InvalidDataType {
            got: copy_kind(got),
        },
        SQLErrorKind::Other(t) => SQLErrorKind::Other(copy_kind(t)),
        SQLErrorKind::UnclosedParenthesis => SQLErrorKind::UnclosedParenthesis,
        SQLErrorKind::UnexpectedEnd => SQLErrorKind::UnexpectedEnd,
        SQLErrorKind::UnexpectedTokenKind { expected, got } => SQLErrorKind::UnexpectedTokenKind {
            expected: copy_kind(expected),
            got: copy_kind(got),
        },
        SQLErrorKind::UnterminatedStatement => SQLErrorKind::UnterminatedStatement,
        SQLErrorKind::UnterminatedString => SQLErrorKind::UnterminatedString,
        SQLErrorKind::DuplicateConstraint { column, constraint } =>
            SQLErrorKind::DuplicateConstraint {
            column: column.as_str().to_owned(),
            constraint: *constraint,
        },
    };
    SQLError { kind, pos: e.pos }
}

/// The SQL lexer: a cursor over the source characters with one token of
/// lookahead.
pub struct Lexer {
    src: Vec<char>,
    i: usize,
    pos: usize,
    peeked: Option<Result<Token, SQLError>>,
}

impl Lexer {
    /// The source characters.
    pub closed spec fn spec_src(&self) -> Seq<char> {
        self.src@
    }

    /// How many characters have been consumed.
    pub closed spec fn spec_i(&self) -> int {
        self.i as int
    }

    /// The current byte position.
    pub closed spec fn spec_pos(&self) -> int {
        self.pos as int
    }

    /// The buffered lookahead, if any.
    pub closed spec fn spec_peeked(&self) -> Option<Result<Token, SQLError>> {
        self.peeked
    }

    /// This lexer's observable state, over which the parser's contracts
    /// chain token reads.
    pub open spec fn st(&self) -> LexState {
        LexState { i: self.spec_i(), pos: self.spec_pos(), peeked: self.spec_peeked() }
    }

    /// How much input is left: unconsumed characters plus the buffered
    /// token. Every token handed out strictly shrinks this.
    pub open spec fn spec_remaining(&self) -> int {
        self.spec_src().len() - self.spec_i() + (if self.spec_peeked() is Some {
            1int
        } else {
            0int
        })
    }

    /// The lexer invariant: the cursor inside the source, the byte
    /// position exactly the UTF-8 length of the consumed characters, with
    /// byte room for what is left.
    pub open spec fn wf(&self) -> bool {
        &&& 0 <= self.spec_i() <= self.spec_src().len()
        &&& self.spec_pos() == spec_width_sum(self.spec_src().take(self.spec_i()))
        &&& self.spec_pos() + 4 * (self.spec_src().len() - self.spec_i()) <= usize::MAX
    }

    /// Builds a lexer over `source`.
    pub fn new(source: &str) -> (r: Lexer)
        ensures
            r.wf(),
            r.spec_src() == source@,
            r.spec_i() == 0,
            r.spec_pos() == 0,
            r.spec_peeked() is None,
    {
        let src = str_chars(source);
        proof {
            assert(src@.take(0) =~= Seq::<char>::empty());
        }
        Lexer { src, i: 0, pos: 0, peeked: None }
    }

    /// The current byte position in the source.
    pub fn position(&self) -> (r: usize)
        ensures
            r == self.spec_pos(),
    {
        self.pos
    }

    /// Consumes one character, advancing the byte position by its width.
    fn bump(&mut self)
        requires
            old(self).wf(),
            old(self).spec_i() < old(self).spec_src().len(),
        ensures
            final(self).wf(),
            final(self).spec_src() == old(self).spec_src(),
            final(self).spec_i() == old(self).spec_i() + 1,
            final(self).spec_peeked() == old(self).spec_peeked(),
            final(self).spec_pos() >= old(self).spec_pos(),
    {
        let _n = self.src.len();
        let w = char_width(self.src[self.i]);
        proof {
            assert(self.spec_src().take(self.spec_i() + 1).drop_last() =~= self.spec_src().take(
                self.spec_i(),
            ));
        }
        self.pos = self.pos + w;
        self.i = self.i + 1;
    }

    /// Skips the maximal run of whitespace characters.
    fn skip_ws(&mut self)
        requires
            old(self).wf(),
        ensures
            final(self).wf(),
            final(self).spec_src() == old(self).spec_src(),
            final(self).spec_peeked() == old(self).spec_peeked(),
            final(self).spec_i() >= old(self).spec_i(),
            forall|k: int|
                old(self).spec_i() <= k < final(self).spec_i() ==> char_is_whitespace(
                    #[trigger] final(self).spec_src()[k],
                ),
            final(self).spec_i() == final(self).spec_src().len() || !char_is_whitespace(
                final(self).spec_src()[final(self).spec_i()],
            ),
            spec_skip(final(self).spec_src(), final(self).spec_i()) == spec_skip(
                old(self).spec_src(),
                old(self).spec_i(),
            ),
    {
        while self.i < self.src.len() && is_whitespace_char(self.src[self.i])
            invariant
                self.wf(),
                self.spec_src() == old(self).spec_src(),
                self.spec_peeked() == old(self).spec_peeked(),
                self.spec_i() >= old(self).spec_i(),
                forall|k: int|
                    old(self).spec_i() <= k < self.spec_i() ==> char_is_whitespace(
                        #[trigger] self.spec_src()[k],
                    ),
                spec_skip(self.spec_src(), self.spec_i()) == spec_skip(
                    old(self).spec_src(),
                    old(self).spec_i(),
                ),
            decreases self.spec_src().len() - self.spec_i(),
        {
            self.bump();
        }
    }

    /// Skips up to and including the next newline, or to the end of input.
    fn skip_past_newline(&mut self)
        requires
            old(self).wf(),
        ensures
            final(self).wf(),
            final(self).spec_src() == old(self).spec_src(),
            final(self).spec_peeked() == old(self).spec_peeked(),
            final(self).spec_i() >= old(self).spec_i(),
            final(self).spec_i() == spec_past_newline(old(self).spec_src(), old(self).spec_i()),
    {
        while self.i < self.src.len() && self.src[self.i] != '\n'
            invariant
                self.wf(),
                self.spec_src() == old(self).spec_src(),
                self.spec_peeked() == old(self).spec_peeked(),
                self.spec_i() >= old(self).spec_i(),
                spec_past_newline(self.spec_src(), self.spec_i()) == spec_past_newline(
                    old(self).spec_src(),
                    old(self).spec_i(),
                ),
            decreases self.spec_src().len() - self.spec_i(),
        {
            self.bump();
        }
        if self.i < self.src.len() {
            self.bump();
        }
    }

    /// Skips up to and including the next block-comment terminator, or to
    /// the end of input.
    fn skip_past_block_end(&mut self)
        requires
            old(self).wf(),
        ensures
            final(self).wf(),
            final(self).spec_src() == old(self).spec_src(),
            final(self).spec_peeked() == old(self).spec_peeked(),
            final(self).spec_i() >= old(self).spec_i(),
            final(self).spec_i() == spec_past_block_end(old(self).spec_src(), old(self).spec_i()),
    {
        while self.i < self.src.len() && !(self.i + 1 < self.src.len() && self.src[self.i] == '*'
            && self.src[self.i + 1] == '/')
            invariant
                self.wf(),
                self.spec_src() == old(self).spec_src(),
                self.spec_peeked() == old(self).spec_peeked(),
                self.spec_i() >= old(self).spec_i(),
                spec_past_block_end(self.spec_src(), self.spec_i()) == spec_past_block_end(
                    old(self).spec_src(),
                    old(self).spec_i(),
                ),
            decreases self.spec_src().len() - self.spec_i(),
        {
            self.bump();
        }
        if self.i < self.src.len() {
            self.bump();
            if self.i < self.src.len() {
                self.bump();
            }
        }
    }

    /// Skips whitespace, `--` line comments (to newline or end of input),
    /// and `/* ... */` block comments (an unterminated one consumes the
    /// rest), until a token can start: exactly to [`spec_skip`]'s position.
    fn skip_whitespace_and_comments(&mut self)
        requires
            old(self).wf(),
        ensures
            final(self).wf(),
            final(self).spec_src() == old(self).spec_src(),
            final(self).spec_peeked() == old(self).spec_peeked(),
            final(self).spec_i() == spec_skip(old(self).spec_src(), old(self).spec_i()),
    {
        loop
            invariant
                self.wf(),
                self.spec_src() == old(self).spec_src(),
                self.spec_peeked() == old(self).spec_peeked(),
                self.spec_i() >= old(self).spec_i(),
                spec_skip(self.spec_src(), self.spec_i()) == spec_skip(
                    old(self).spec_src(),
                    old(self).spec_i(),
                ),
            ensures
                self.wf(),
                self.spec_src() == old(self).spec_src(),
                self.spec_peeked() == old(self).spec_peeked(),
                self.spec_i() == spec_skip(old(self).spec_src(), old(self).spec_i()),
            decreases self.spec_src().len() - self.spec_i(),
        {
            self.skip_ws();
            let at_line = self.i < self.src.len() && self.i + 1 < self.src.len()
                && self.src[self.i] == '-' && self.src[self.i + 1] == '-';
            if at_line {
                let ghost at = self.spec_i();
                self.bump();
                self.bump();
                self.skip_past_newline();
                proof {
                    lemma_scan_bounds(self.spec_src(), at + 2);
                    assert(self.spec_i() > at);
                    assert(spec_skip(self.spec_src(), at) == spec_skip(
                        self.spec_src(),
                        self.spec_i(),
                    ));
                }
                continue ;
            }
            let at_block = self.i < self.src.len() && self.i + 1 < self.src.len()
                && self.src[self.i] == '/' && self.src[self.i + 1] == '*';
            if at_block {
                let ghost at = self.spec_i();
                self.bump();
                self.bump();
                self.skip_past_block_end();
                proof {
                    lemma_scan_bounds(self.spec_src(), at + 2);
                    assert(self.spec_i() > at);
                    assert(spec_skip(self.spec_src(), at) == spec_skip(
                        self.spec_src(),
                        self.spec_i(),
                    ));
                }
                continue ;
            }
            proof {
                assert(spec_skip(self.spec_src(), self.spec_i()) == self.spec_i());
            }
            break ;
        }
    }

    /// Returns the next token, taking the buffered lookahead first.
    ///
    /// `None` means the input is exhausted. Every `Some` strictly shrinks
    /// the remaining input; a buffered token is handed out unchanged, and
    /// with nothing buffered the token is the one the skip-and-dispatch
    /// specification fixes for the cursor.
    pub fn next(&mut self) -> (r: Option<Result<Token, SQLError>>)
        requires
            old(self).wf(),
        ensures
            final(self).wf(),
            final(self).spec_src() == old(self).spec_src(),
            final(self).spec_remaining() <= old(self).spec_remaining(),
            r is Some ==> final(self).spec_remaining() < old(self).spec_remaining(),
            final(self).spec_peeked() is None,
            old(self).spec_peeked() is Some ==> r == old(self).spec_peeked(),
            spec_read(old(self).spec_src(), old(self).st(), final(self).st(), r),
            old(self).spec_peeked() is None ==> ({
                let src = old(self).spec_src();
                let j = spec_skip(src, old(self).spec_i());
                &&& (r is None <==> j == src.len())
                &&& (r matches Some(t) ==> spec_dispatch_post(
                    src,
                    j,
                    spec_width_sum(src.take(j)),
                    final(self).spec_i(),
                    final(self).spec_pos(),
                    t,
                ))
            }),
    {
        let mut taken: Option<Result<Token, SQLError>> = None;
        core::mem::swap(&mut self.peeked, &mut taken);
        match taken {
            Some(t) => {
                return Some(t);
            },
            None => {},
        }
        self.lex_token()
    }

    /// Buffers and returns a copy of the next token without consuming it:
    /// the copy is character-for-character what the next `next` hands out,
    /// and an already-buffered token is left in place.
    pub fn peek(&mut self) -> (r: Option<Result<Token, SQLError>>)
        requires
            old(self).wf(),
        ensures
            final(self).wf(),
            final(self).spec_src() == old(self).spec_src(),
            final(self).spec_remaining() <= old(self).spec_remaining(),
            old(self).spec_peeked() is Some ==> final(self).spec_peeked() == old(
                self,
            ).spec_peeked() && *final(self) == *old(self),
            match (r, final(self).spec_peeked()) {
                (None, None) => true,
                (Some(Ok(a)), Some(Ok(b))) => spec_token_eqv(a, b),
                (Some(Err(a)), Some(Err(b))) => spec_err_eqv(a, b),
                _ => false,
            },
            old(self).spec_peeked() is None ==> spec_read(
                old(self).spec_src(),
                old(self).st(),
                LexState { i: final(self).spec_i(), pos: final(self).spec_pos(), peeked: None },
                final(self).spec_peeked(),
            ),
            old(self).spec_peeked() is None ==> ({
                let src = old(self).spec_src();
                let j = spec_skip(src, old(self).spec_i());
                &&& (final(self).spec_peeked() is None <==> j == src.len())
                &&& (final(self).spec_peeked() matches Some(t) ==> spec_dispatch_post(
                    src,
                    j,
                    spec_width_sum(src.take(j)),
                    final(self).spec_i(),
                    final(self).spec_pos(),
                    t,
                ))
            }),
    {
        let has = match &self.peeked {
            Some(_) => true,
            None => false,
        };
        if has == false {
            let n = self.next();
            self.peeked = n;
        }
        match &self.peeked {
            None => None,
            Some(Ok(t)) => Some(Ok(Token { kind: copy_kind(&t.kind), offset: t.offset })),
            Some(Err(e)) => Some(Err(copy_err(e))),
        }
    }

    /// Lexes one token from the current position: skips whitespace and
    /// comments exactly to [`spec_skip`]'s position `j`, then, when input
    /// remains, reads the token [`spec_dispatch_post`] fixes for the
    /// character at `j`; `None` exactly at end of input.
    fn lex_token(&mut self) -> (r: Option<Result<Token, SQLError>>)
        requires
            old(self).wf(),
            old(self).spec_peeked() is None,
        ensures
            final(self).wf(),
            final(self).spec_src() == old(self).spec_src(),
            final(self).spec_peeked() is None,
            final(self).spec_i() >= old(self).spec_i(),
            r is Some ==> final(self).spec_i() > old(self).spec_i(),
            ({
                let src = old(self).spec_src();
                let j = spec_skip(src, old(self).spec_i());
                &&& (r is None <==> j == src.len())
                &&& (r matches Some(t) ==> spec_dispatch_post(
                    src,
                    j,
                    spec_width_sum(src.take(j)),
                    final(self).spec_i(),
                    final(self).spec_pos(),
                    t,
                ))
                &&& (r is None ==> final(self).spec_i() == j)
            }),
    {
        self.skip_whitespace_and_comments();
        proof {
            lemma_skip_bounds(old(self).spec_src(), old(self).spec_i());
        }
        if self.i >= self.src.len() {
            return None;
        }
        Some(self.dispatch_token())
    }

    /// Reads the token starting at the cursor, which must not stand at the
    /// end of input. The result is pinned case by case on the character
    /// under the cursor: numeric literals, strings, and words by their
    /// maximal-run contracts; punctuation and comparison forms exactly; a
    /// bare `!` and any unknown character as `InvalidCharacter`, positioned
    /// after the offending character.
    fn dispatch_token(&mut self) -> (r: Result<Token, SQLError>)
        requires
            old(self).wf(),
            old(self).spec_peeked() is None,
            old(self).spec_i() < old(self).spec_src().len(),
        ensures
            final(self).wf(),
            final(self).spec_src() == old(self).spec_src(),
            final(self).spec_peeked() is None,
            final(self).spec_i() > old(self).spec_i(),
            spec_dispatch_post(
                old(self).spec_src(),
                old(self).spec_i(),
                old(self).spec_pos(),
                final(self).spec_i(),
                final(self).spec_pos(),
                r,
            ),
    {
        let c = self.src[self.i];
        let c_at = self.pos;
        let u = c as u32;
        if 48 <= u && u <= 57 {
            return self.lex_number(c_at);
        }
        if c == '"' || c == '\'' {
            return self.lex_string(c, c_at);
        }
        if is_alphabetic_char(c) {
            return self.lex_word(c_at);
        }
        self.bump();
        let kind = match c {
            '(' => TokenKind::LeftParen,
            ')' => TokenKind::RightParen,
            '+' => TokenKind::Plus,
            '-' => TokenKind::Minus,
            '*' => TokenKind::Asterisk,
            '/' => TokenKind::Slash,
            ',' => TokenKind::Comma,
            ';' => TokenKind::Semicolon,
            '<' | '>' | '=' | '!' => {
                let followed = self.i < self.src.len() && self.src[self.i] == '=';
                if followed {
                    self.bump();
                    match c {
                        '<' => TokenKind::LessThanOrEqual,
                        '>' => TokenKind::GreaterThanOrEqual,
                        '=' => TokenKind::EqualsEquals,
                        _ => TokenKind::NotEquals,
                    }
                } else {
                    match c {
                        '<' => TokenKind::LessThan,
                        '>' => TokenKind::GreaterThan,
                        '=' => TokenKind::Equals,
                        _ => {
                            return Err(
                                SQLError::new(SQLErrorKind::InvalidCharacter { c: '!' }, self.pos),
                            );
                        },
                    }
                }
            },
            _ => {
                return Err(SQLError::new(SQLErrorKind::InvalidCharacter { c }, self.pos));
            },
        };
        Ok(Token { kind, offset: c_at })
    }

    /// Lexes a numeric literal: the maximal run of digits and dots, an
    /// integer when the run is all digits and fits `i32`, a float when it
    /// holds at most one dot, and `InvalidNumber` otherwise.
    fn lex_number(&mut self, c_at: usize) -> (r: Result<Token, SQLError>)
        requires
            old(self).wf(),
            old(self).spec_peeked() is None,
            old(self).spec_i() < old(self).spec_src().len(),
            spec_is_digit(old(self).spec_src()[old(self).spec_i()]),
        ensures
            final(self).wf(),
            final(self).spec_src() == old(self).spec_src(),
            final(self).spec_peeked() is None,
            final(self).spec_i() > old(self).spec_i(),
            // the consumed run is the maximal digit-and-dot run
            forall|k: int|
                old(self).spec_i() <= k < final(self).spec_i() ==> spec_is_number_char(
                    #[trigger] final(self).spec_src()[k],
                ),
            final(self).spec_i() == final(self).spec_src().len() || !spec_is_number_char(
                final(self).spec_src()[final(self).spec_i()],
            ),
            ({
                let lit = old(self).spec_src().subrange(old(self).spec_i(), final(self).spec_i());
                if (forall|k: int| 0 <= k < lit.len() ==> spec_is_digit(#[trigger] lit[k]))
                    && spec_dec_val(lit) <= i32::MAX {
                    r == Ok::<Token, SQLError>(
                        Token {
                            kind: TokenKind::Number(
                                NumberKind::Integer(spec_dec_val(lit) as i32),
                            ),
                            offset: c_at,
                        },
                    )
                } else if spec_dot_count(lit) <= 1 {
                    match r {
                        Ok(t) => t.offset == c_at && match t.kind {
                            TokenKind::Number(NumberKind::Float(text)) => text@ == lit,
                            _ => false,
                        },
                        Err(_) => false,
                    }
                } else {
                    r == Err::<Token, SQLError>(
                        SQLError { kind: SQLErrorKind::InvalidNumber, pos: c_at as usize },
                    )
                }
            }),
    {
        let mut literal: Vec<char> = Vec::new();
        let ghost i0 = self.spec_i();
        while self.at_number_char()
            invariant
                self.wf(),
                self.spec_src() == old(self).spec_src(),
                self.spec_peeked() is None,
                0 <= i0 <= self.spec_i(),
                literal@ == self.spec_src().subrange(i0, self.spec_i()),
                forall|k: int|
                    i0 <= k < self.spec_i() ==> spec_is_number_char(
                        #[trigger] self.spec_src()[k],
                    ),
            decreases self.spec_src().len() - self.spec_i(),
        {
            literal.push(self.src[self.i]);
            proof {
                assert(literal@ =~= self.spec_src().subrange(i0, self.spec_i() + 1));
            }
            self.bump();
        }
        proof {
            assert(self.spec_i() > i0) by {
                assert(spec_is_number_char(self.spec_src()[i0]));
            }
        }
        match parse_i32_digits(&literal) {
            Some(v) => Ok(Token { kind: TokenKind::Number(NumberKind::Integer(v)), offset: c_at }),
            None => {
                let mut dots: usize = 0;
                let mut j: usize = 0;
                while j < literal.len()
                    invariant
                        j <= literal@.len(),
                        dots <= j,
                        dots == spec_dot_count(literal@.take(j as int)),
                    decreases literal@.len() - j,
                {
                    proof {
                        assert(literal@.take(j + 1).drop_last() =~= literal@.take(j as int));
                    }
                    if literal[j] == '.' {
                        dots = dots + 1;
                    }
                    j = j + 1;
                }
                proof {
                    assert(literal@.take(literal@.len() as int) =~= literal@);
                }
                if dots <= 1 {
                    Ok(
                        Token {
                            kind: TokenKind::Number(NumberKind::Float(chars_to_string(&literal))),
                            offset: c_at,
                        },
                    )
                } else {
                    proof {
                        lemma_dots_means_not_all_digits(literal@);
                    }
                    Err(SQLError::new(SQLErrorKind::InvalidNumber, c_at))
                }
            },
        }
    }

    /// Whether the cursor stands on a digit or a dot.
    fn at_number_char(&self) -> (r: bool)
        requires
            self.wf(),
        ensures
            r == (self.spec_i() < self.spec_src().len() && spec_is_number_char(
                self.spec_src()[self.spec_i()],
            )),
    {
        if self.i < self.src.len() {
            let u = self.src[self.i] as u32;
            (48 <= u && u <= 57) || self.src[self.i] == '.'
        } else {
            false
        }
    }

    /// Lexes a quoted string literal: everything up to the next matching
    /// quote, quotes stripped; without a closing quote the rest of the
    /// input is consumed and the token is `UnterminatedString`.
    fn lex_string(&mut self, quote: char, c_at: usize) -> (r: Result<Token, SQLError>)
        requires
            old(self).wf(),
            old(self).spec_peeked() is None,
            old(self).spec_i() < old(self).spec_src().len(),
        ensures
            final(self).wf(),
            final(self).spec_src() == old(self).spec_src(),
            final(self).spec_peeked() is None,
            final(self).spec_i() > old(self).spec_i(),
            r matches Ok(t) ==> ({
                let j = final(self).spec_i() - 1;
                &&& old(self).spec_i() + 1 <= j < final(self).spec_src().len()
                &&& final(self).spec_src()[j] == quote
                &&& forall|k: int|
                    old(self).spec_i() + 1 <= k < j ==> #[trigger] final(self).spec_src()[k]
                        != quote
                &&& t.offset == c_at
                &&& match t.kind {
                    TokenKind::String(text) => text@ == final(self).spec_src().subrange(
                        old(self).spec_i() + 1,
                        j,
                    ),
                    _ => false,
                }
            }),
            r matches Err(e) ==> e == (SQLError {
                kind: SQLErrorKind::UnterminatedString,
                pos: c_at as usize,
            }) && final(self).spec_i() == final(self).spec_src().len() && forall|k: int|
                old(self).spec_i() + 1 <= k < final(self).spec_src().len()
                    ==> #[trigger] final(self).spec_src()[k] != quote,
    {
        let ghost i0 = self.spec_i();
        self.bump();
        let mut literal: Vec<char> = Vec::new();
        while self.i < self.src.len() && self.src[self.i] != quote
            invariant
                self.wf(),
                self.spec_src() == old(self).spec_src(),
                self.spec_peeked() is None,
                0 <= i0 < self.spec_i(),
                literal@ == self.spec_src().subrange(i0 + 1, self.spec_i()),
                forall|k: int|
                    i0 + 1 <= k < self.spec_i() ==> #[trigger] self.spec_src()[k] != quote,
            decreases self.spec_src().len() - self.spec_i(),
        {
            literal.push(self.src[self.i]);
            proof {
                assert(literal@ =~= self.spec_src().subrange(i0 + 1, self.spec_i() + 1));
            }
            self.bump();
        }
        if self.i >= self.src.len() {
            return Err(SQLError::new(SQLErrorKind::UnterminatedString, c_at));
        }
        self.bump();
        let text = chars_to_string(&literal);
        Ok(Token { kind: TokenKind::String(text), offset: c_at })
    }

    /// Lexes a keyword or identifier: the maximal run of alphabetic
    /// characters and underscores, matched case-insensitively against the
    /// keywords; anything unrecognized is an identifier with its source
    /// spelling.
    fn lex_word(&mut self, c_at: usize) -> (r: Result<Token, SQLError>)
        requires
            old(self).wf(),
            old(self).spec_peeked() is None,
            old(self).spec_i() < old(self).spec_src().len(),
        ensures
            final(self).wf(),
            final(self).spec_src() == old(self).spec_src(),
            final(self).spec_peeked() is None,
            final(self).spec_i() > old(self).spec_i(),
            forall|k: int|
                old(self).spec_i() < k < final(self).spec_i() ==> spec_is_word_char(
                    #[trigger] final(self).spec_src()[k],
                ),
            final(self).spec_i() == final(self).spec_src().len() || !spec_is_word_char(
                final(self).spec_src()[final(self).spec_i()],
            ),
            r matches Ok(t) ==> t.offset == c_at && ({
                let run = final(self).spec_src().subrange(
                    old(self).spec_i(),
                    final(self).spec_i(),
                );
                match t.kind {
                    TokenKind::Identifier(text) => text@ == run && spec_keyword_of(run) is None,
                    TokenKind::Keyword(kw) => spec_keyword_of(run) == Some(kw),
                    _ => false,
                }
            }),
            r is Ok,
    {
        let ghost i0 = self.spec_i();
        let mut literal: Vec<char> = Vec::new();
        literal.push(self.src[self.i]);
        self.bump();
        while self.i < self.src.len() && (is_alphabetic_char(self.src[self.i]) || self.src[self.i]
            == '_')
            invariant
                self.wf(),
                self.spec_src() == old(self).spec_src(),
                self.spec_peeked() is None,
                0 <= i0 < self.spec_i(),
                literal@ == self.spec_src().subrange(i0, self.spec_i()),
                forall|k: int|
                    i0 < k < self.spec_i() ==> spec_is_word_char(#[trigger] self.spec_src()[k]),
            decreases self.spec_src().len() - self.spec_i(),
        {
            literal.push(self.src[self.i]);
            proof {
                assert(literal@ =~= self.spec_src().subrange(i0, self.spec_i() + 1));
            }
            self.bump();
        }
        let kind = match keyword_lookup(&literal) {
            Some(kw) => TokenKind::Keyword(kw),
            None => TokenKind::Identifier(chars_to_string(&literal)),
        };
        Ok(Token { kind, offset: c_at })
    }
}

/// ASCII upper-case folding of a character's scalar value: lower-case
/// ASCII letters map to their upper-case forms, everything else to itself.
pub open spec fn spec_fold_upper(c: char) -> int {
    if 97 <= (c as u32) && (c as u32) <= 122 {
        (c as u32) - 32
    } else {
        (c as u32) as int
    }
}

/// Whether a word spells the ASCII keyword `kw`, case-insensitively.
pub open spec fn spec_word_is(s: Seq<char>, kw: Seq<char>) -> bool {
    s.len() == kw.len() && forall|j: int|
        0 <= j < s.len() ==> spec_fold_upper(#[trigger] s[j]) == (kw[j] as u32) as int
}

/// The keyword a word spells, case-insensitively, if any: the table of
/// statement, clause, literal, type, constraint, and aggregate keywords.
pub open spec fn spec_keyword_of(s: Seq<char>) -> Option<Keyword> {
    if spec_word_is(s, "SELECT"@) {
        Some(Keyword::Select)
    } else if spec_word_is(s, "FROM"@) {
        Some(Keyword::From)
    } else if spec_word_is(s, "WHERE"@) {
        Some(Keyword::Where)
    } else if spec_word_is(s, "ORDER"@) {
        Some(Keyword::Order)
    } else if spec_word_is(s, "BY"@) {
        Some(Keyword::By)
    } else if spec_word_is(s, "ASC"@) {
        Some(Keyword::Asc)
    } else if spec_word_is(s, "DESC"@) {
        Some(Keyword::Desc)
    } else if spec_word_is(s, "TRUE"@) {
        Some(Keyword::True)
    } else if spec_word_is(s, "FALSE"@) {
        Some(Keyword::False)
    } else if spec_word_is(s, "AND"@) {
        Some(Keyword::And)
    } else if spec_word_is(s, "OR"@) {
        Some(Keyword::Or)
    } else if spec_word_is(s, "NOT"@) {
        Some(Keyword::Not)
    } else if spec_word_is(s, "LIMIT"@) {
        Some(Keyword::Limit)
    } else if spec_word_is(s, "OFFSET"@) {
        Some(Keyword::Offset)
    } else if spec_word_is(s, "INSERT"@) {
        Some(Keyword::Insert)
    } else if spec_word_is(s, "INTO"@) {
        Some(Keyword::Into)
    } else if spec_word_is(s, "VALUES"@) {
        Some(Keyword::Values)
    } else if spec_word_is(s, "CREATE"@) {
        Some(Keyword::Create)
    } else if spec_word_is(s, "TABLE"@) {
        Some(Keyword::Table)
    } else if spec_word_is(s, "INT"@) {
        Some(Keyword::Int)
    } else if spec_word_is(s, "FLOAT"@) {
        Some(Keyword::Float)
    } else if spec_word_is(s, "TEXT"@) {
        Some(Keyword::Text)
    } else if spec_word_is(s, "PRIMARY"@) {
        Some(Keyword::Primary)
    } else if spec_word_is(s, "KEY"@) {
        Some(Keyword::Key)
    } else if spec_word_is(s, "NULLABLE"@) {
        Some(Keyword::Nullable)
    } else if spec_word_is(s, "COUNT"@) {
        Some(Keyword::Aggregate(Aggregate::Count))
    } else if spec_word_is(s, "SUM"@) {
        Some(Keyword::Aggregate(Aggregate::Sum))
    } else if spec_word_is(s, "AVG"@) {
        Some(Keyword::Aggregate(Aggregate::Avg))
    } else if spec_word_is(s, "STDDEV"@) {
        Some(Keyword::Aggregate(Aggregate::StdDev))
    } else if spec_word_is(s, "MIN"@) {
        Some(Keyword::Aggregate(Aggregate::Min))
    } else if spec_word_is(s, "MAX"@) {
        Some(Keyword::Aggregate(Aggregate::Max))
    } else {
        None
    }
}

/// Compares a word against an ASCII keyword, case-insensitively.
fn word_is(chars: &Vec<char>, kw: &str) -> (r: bool)
    requires
        kw.is_ascii(),
    ensures
        r == spec_word_is(chars@, kw@),
{
    broadcast use vstd::string::is_ascii_spec_bytes;

    let kb = kw.as_bytes();
    if chars.len() != kb.len() {
        return false;
    }
    let mut j: usize = 0;
    while j < chars.len()
        invariant
            kw.is_ascii(),
            chars@.len() == kb@.len() == kw@.len(),
            kb@ == Seq::new(kw@.len(), |i: int| kw@.index(i) as u8),
            j <= chars@.len(),
            forall|k: int|
                0 <= k < j ==> spec_fold_upper(#[trigger] chars@[k]) == (kw@[k] as u32) as int,
        decreases chars@.len() - j,
    {
        let u = chars[j] as u32;
        let folded = if 97 <= u && u <= 122 {
            u - 32
        } else {
            u
        };
        if folded != kb[j] as u32 {
            return false;
        }
        j = j + 1;
    }
    true
}

/// Maps a word onto the keyword it spells, case-insensitively, if any:
/// exactly the [`spec_keyword_of`] table.
fn keyword_lookup(chars: &Vec<char>) -> (r: Option<Keyword>)
    ensures
        r == spec_keyword_of(chars@),
{
    proof {
        reveal_strlit("SELECT");
    }
    if word_is(chars, "SELECT") {
        return Some(Keyword::Select);
    }
    proof {
        reveal_strlit("FROM");
    }
    if word_is(chars, "FROM") {
        return Some(Keyword::From);
    }
    proof {
        reveal_strlit("WHERE");
    }
    if word_is(chars, "WHERE") {
        return Some(Keyword::Where);
    }
    proof {
        reveal_strlit("ORDER");
    }
    if word_is(chars, "ORDER") {
        return Some(Keyword::Order);
    }
    proof {
        reveal_strlit("BY");
    }
    if word_is(chars, "BY") {
        return Some(Keyword::By);
    }
    proof {
        reveal_strlit("ASC");
    }
    if word_is(chars, "ASC") {
        return Some(Keyword::Asc);
    }
    proof {
        reveal_strlit("DESC");
    }
    if word_is(chars, "DESC") {
        return Some(Keyword::Desc);
    }
    proof {
        reveal_strlit("TRUE");
    }
    if word_is(chars, "TRUE") {
        return Some(Keyword::True);
    }
    proof {
        reveal_strlit("FALSE");
    }
    if word_is(chars, "FALSE") {
        return Some(Keyword::False);
    }
    proof {
        reveal_strlit("AND");
    }
    if word_is(chars, "AND") {
        return Some(Keyword::And);
    }
    proof {
        reveal_strlit("OR");
    }
    if word_is(chars, "OR") {
        return Some(Keyword::Or);
    }
    proof {
        reveal_strlit("NOT");
    }
    if word_is(chars, "NOT") {
        return Some(Keyword::Not);
    }
    proof {
        reveal_strlit("LIMIT");
    }
    if word_is(chars, "LIMIT") {
        return Some(Keyword::Limit);
    }
    proof {
        reveal_strlit("OFFSET");
    }
    if word_is(chars, "OFFSET") {
        return Some(Keyword::Offset);
    }
    proof {
        reveal_strlit("INSERT");
    }
    if word_is(chars, "INSERT") {
        return Some(Keyword::Insert);
    }
    proof {
        reveal_strlit("INTO");
    }
    if word_is(chars, "INTO") {
        return Some(Keyword::Into);
    }
    proof {
        reveal_strlit("VALUES");
    }
    if word_is(chars, "VALUES") {
        return Some(Keyword::Values);
    }
    proof {
        reveal_strlit("CREATE");
    }
    if word_is(chars, "CREATE") {
        return Some(Keyword::Create);
    }
    proof {
        reveal_strlit("TABLE");
    }
    if word_is(chars, "TABLE") {
        return Some(Keyword::Table);
    }
    proof {
        reveal_strlit("INT");
    }
    if word_is(chars, "INT") {
        return Some(Keyword::Int);
    }
    proof {
        reveal_strlit("FLOAT");
    }
    if word_is(chars, "FLOAT") {
        return Some(Keyword::Float);
    }
    proof {
        reveal_strlit("TEXT");
    }
    if word_is(chars, "TEXT") {
        return Some(Keyword::Text);
    }
    proof {
        reveal_strlit("PRIMARY");
    }
    if word_is(chars, "PRIMARY") {
        return Some(Keyword::Primary);
    }
    proof {
        reveal_strlit("KEY");
    }
    if word_is(chars, "KEY") {
        return Some(Keyword::Key);
    }
    proof {
        reveal_strlit("NULLABLE");
    }
    if word_is(chars, "NULLABLE") {
        return Some(Keyword::Nullable);
    }
    proof {
        reveal_strlit("COUNT");
    }
    if word_is(chars, "COUNT") {
        return Some(Keyword::Aggregate(Aggregate::Count));
    }
    proof {
        reveal_strlit("SUM");
    }
    if word_is(chars, "SUM") {
        return Some(Keyword::Aggregate(Aggregate::Sum));
    }
    proof {
        reveal_strlit("AVG");
    }
    if word_is(chars, "AVG") {
        return Some(Keyword::Aggregate(Aggregate::Avg));
    }
    proof {
        reveal_strlit("STDDEV");
    }
    if word_is(chars, "STDDEV") {
        return Some(Keyword::Aggregate(Aggregate::StdDev));
    }
    proof {
        reveal_strlit("MIN");
    }
    if word_is(chars, "MIN") {
        return Some(Keyword::Aggregate(Aggregate::Min));
    }
    proof {
        reveal_strlit("MAX");
    }
    if word_is(chars, "MAX") {
        return Some(Keyword::Aggregate(Aggregate::Max));
    }
    None
}

} // verus!

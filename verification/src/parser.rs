//! A parser over the tokens of the byte-level tokeniser: whitespace tokens
//! are passed over, except where the indentation at the start of a line
//! opens a block.
use crate::ast::{Expr, Stmt, TokenRef};
use crate::diagnostic::Diagnostic;
use crate::text::{bytes_of, on_boundary, slice_str};
use crate::tokens::{Token, TokenType};
use vstd::prelude::*;
use vstd::string::StringExecFns;

verus! {

// ---------------------------------------------------------------------
// Positions in the tokens
// ---------------------------------------------------------------------

/// The kind of the token at `p`; past the end, the end of the file.
pub open spec fn kind_at(t: Seq<Token>, p: int) -> TokenType {
    if 0 <= p < t.len() {
        t[p].ttype
    } else {
        TokenType::EndOfFile
    }
}

pub open spec fn is_ws(t: Seq<Token>, p: int) -> bool {
    kind_at(t, p) == TokenType::Whitespace
}

/// Where the bracket that closes the one before `p` ends: the position after
/// the first `)` at `depth` 0 (brackets opened after `p` count down, closed
/// ones up), or -1 when the end comes first.
pub open spec fn bracket_end(t: Seq<Token>, p: int, depth: int) -> int
    decreases t.len() + 1 - p,
{
    if p < 0 || p > t.len() {
        -1
    } else if depth == 0 && kind_at(t, p) == TokenType::RightParen {
        p + 1
    } else if kind_at(t, p) == TokenType::EndOfFile {
        -1
    } else {
        bracket_end(
            t,
            p + 1,
            if kind_at(t, p) == TokenType::RightParen {
                depth + 1
            } else if kind_at(t, p) == TokenType::LeftParen {
                depth - 1
            } else {
                depth
            },
        )
    }
}

/// The first position at or after `p` that does not hold whitespace.
pub open spec fn ws_end(t: Seq<Token>, p: int) -> int
    decreases t.len() - p,
{
    if 0 <= p < t.len() && is_ws(t, p) {
        ws_end(t, p + 1)
    } else {
        p
    }
}

/// The bracket at `p` opens the parameters of a function: its closing
/// bracket is followed, past whitespace, by an arrow.
pub open spec fn function_bracket_at(t: Seq<Token>, p: int) -> bool {
    let end = bracket_end(t, p + 1, 0);
    &&& end >= 0
    &&& (kind_at(t, ws_end(t, end)) == TokenType::FatRightArrow || kind_at(t, ws_end(t, end))
        == TokenType::RightArrow)
}

/// The token at `p` is a number, `true`, `false` or `null`.
pub open spec fn value_kind(t: Seq<Token>, p: int) -> bool {
    let k = kind_at(t, p);
    k == TokenType::Number || k == TokenType::True || k == TokenType::False || k
        == TokenType::Null
}

/// `e` is the literal that the value token at `p` reads as: that token,
/// with its text as the value.
pub open spec fn literal_token_of(t: Seq<Token>, p: int, e: Expr) -> bool {
    e matches Expr::Literal { token, value } && *token == t[p] && value == t[p].value
}

/// A position the parser can stop at: past the end, or on a token that is
/// not whitespace.
pub open spec fn settled(t: Seq<Token>, p: int) -> bool {
    p >= 0 && !is_ws(t, p)
}

/// Where `next` goes from `p`: the next token that is not whitespace.
pub open spec fn next_from(t: Seq<Token>, p: int) -> int
    decreases t.len() - p,
{
    if p + 1 < t.len() && is_ws(t, p + 1) {
        next_from(t, p + 1)
    } else {
        p + 1
    }
}

/// Where `back` goes from `p`: the token before that is not whitespace,
/// or -1 when there is none.
pub open spec fn back_from(t: Seq<Token>, p: int) -> int
    decreases p,
{
    if p - 1 < 0 {
        -1
    } else if is_ws(t, p - 1) {
        back_from(t, p - 1)
    } else {
        p - 1
    }
}

/// The tokens not yet passed at `p`.
pub open spec fn rest(t: Seq<Token>, p: int) -> int {
    if p < t.len() {
        t.len() - p
    } else {
        0
    }
}

proof fn lemma_next_from(t: Seq<Token>, p: int)
    requires
        p >= 0,
    ensures
        next_from(t, p) > p,
        settled(t, next_from(t, p)),
        forall|k: int| p < k < next_from(t, p) ==> is_ws(t, k),
        p < t.len() ==> next_from(t, p) <= t.len(),
        p >= t.len() ==> next_from(t, p) == p + 1,
    decreases t.len() - p,
{
    if p + 1 < t.len() && is_ws(t, p + 1) {
        lemma_next_from(t, p + 1);
    }
}

proof fn lemma_back_from(t: Seq<Token>, p: int)
    requires
        p >= 0,
    ensures
        back_from(t, p) < p,
        back_from(t, p) >= 0 ==> settled(t, back_from(t, p)),
        forall|k: int| back_from(t, p) < k < p ==> is_ws(t, k),
    decreases p,
{
    if p - 1 >= 0 && is_ws(t, p - 1) {
        lemma_back_from(t, p - 1);
    }
}

/// Through whitespace only, `back` finds again the settled token it came
/// from.
proof fn lemma_back_to(t: Seq<Token>, q: int, p: int)
    requires
        settled(t, q),
        q < p,
        forall|k: int| q < k < p ==> is_ws(t, k),
    ensures
        back_from(t, p) == q,
    decreases p - q,
{
    if p - 1 > q {
        lemma_back_to(t, q, p - 1);
    }
}

/// `back` undoes `next` from a settled position.
proof fn lemma_next_back(t: Seq<Token>, q: int)
    requires
        settled(t, q),
    ensures
        back_from(t, next_from(t, q)) == q,
{
    lemma_next_from(t, q);
    lemma_back_to(t, q, next_from(t, q));
}

/// A settled token at or after `q` and before `p` is found by `back` from
/// `p`, at or after `q`.
proof fn lemma_back_at_least(t: Seq<Token>, q: int, k: int, p: int)
    requires
        0 <= q <= k < p,
        settled(t, k),
    ensures
        back_from(t, p) >= q,
    decreases p,
{
    if p - 1 > k && is_ws(t, p - 1) {
        lemma_back_at_least(t, q, k, p - 1);
    }
}

// ---------------------------------------------------------------------
// Precedence and errors
// ---------------------------------------------------------------------

#[derive(Clone, Copy, Debug, PartialEq, Eq, Structural)]
enum Precedence {
    Lowest,
    Assignment,
    Or,
    And,
    Nullish,
    Equality,
    Comparison,
    Term,
    Factor,
    Unary,
    Call,
    Primary,
    Comment,
}

impl Precedence {
    spec fn rank(self) -> int {
        match self {
            Precedence::Lowest => 1,
            Precedence::Assignment => 2,
            Precedence::Or => 3,
            Precedence::And => 4,
            Precedence::Nullish => 5,
            Precedence::Equality => 6,
            Precedence::Comparison => 7,
            Precedence::Term => 8,
            Precedence::Factor => 9,
            Precedence::Unary => 10,
            Precedence::Call => 11,
            Precedence::Primary => 12,
            Precedence::Comment => 13,
        }
    }

    fn level(self) -> (r: u8)
        ensures
            r == self.rank(),
    {
        match self {
            Precedence::Lowest => 1,
            Precedence::Assignment => 2,
            Precedence::Or => 3,
            Precedence::And => 4,
            Precedence::Nullish => 5,
            Precedence::Equality => 6,
            Precedence::Comparison => 7,
            Precedence::Term => 8,
            Precedence::Factor => 9,
            Precedence::Unary => 10,
            Precedence::Call => 11,
            Precedence::Primary => 12,
            Precedence::Comment => 13,
        }
    }

    fn next(self) -> (r: Self)
        ensures
            self.rank() >= 2 ==> r.rank() >= 2,
            r.rank() == if self.rank() >= 11 {
                12
            } else {
                self.rank() + 1
            },
    {
        match self {
            Precedence::Lowest => Precedence::Assignment,
            Precedence::Assignment => Precedence::Or,
            Precedence::Or => Precedence::And,
            Precedence::And => Precedence::Nullish,
            Precedence::Nullish => Precedence::Equality,
            Precedence::Equality => Precedence::Comparison,
            Precedence::Comparison => Precedence::Term,
            Precedence::Term => Precedence::Factor,
            Precedence::Factor => Precedence::Unary,
            Precedence::Unary => Precedence::Call,
            Precedence::Call | Precedence::Primary | Precedence::Comment => Precedence::Primary,
        }
    }

    fn from(token_type: TokenType) -> (r: Self)
        ensures
            r.rank() >= 2 ==> infix(token_type),
            binary_operator(token_type) ==> r.rank() >= 3,
            token_type == TokenType::EndOfFile ==> r.rank() == 1,
    {
        match token_type {
            TokenType::And => Precedence::And,
            TokenType::Or => Precedence::Or,
            TokenType::QuestionQuestion => Precedence::Nullish,
            TokenType::LeftParen => Precedence::Call,
            TokenType::Plus | TokenType::Minus => Precedence::Term,
            TokenType::Star | TokenType::Slash => Precedence::Factor,
            TokenType::BangEqual | TokenType::EqualEqual => Precedence::Equality,
            TokenType::Greater
            | TokenType::GreaterEqual
            | TokenType::Less
            | TokenType::LessEqual => Precedence::Comparison,
            TokenType::Comment => Precedence::Comment,
            _ => Precedence::Lowest,
        }
    }
}

/// The token kinds that continue an expression after it.
pub open spec fn infix(t: TokenType) -> bool {
    t == TokenType::LeftParen || t == TokenType::Comment || binary_operator(t)
}

pub open spec fn binary_operator(t: TokenType) -> bool {
    t == TokenType::Plus || t == TokenType::Minus || t == TokenType::Star || t == TokenType::Slash
        || t == TokenType::BangEqual || t == TokenType::EqualEqual || t == TokenType::Greater || t
        == TokenType::GreaterEqual || t == TokenType::Less || t == TokenType::LessEqual || t
        == TokenType::And || t == TokenType::Or || t == TokenType::QuestionQuestion
}

#[derive(Clone, Copy, Debug, PartialEq, Eq, Structural)]
enum Error {
    ExpectedOpeningBracket,
    ExpectedClosingBracket,
    ExpectedExpression,
    ExpectedFunctionArrow,
    ExpectedNewLine,
    ExpectedIdentifier,
    InvalidAssignmentTarget,
    UnexpectedCharacter,
    UnterminatedString,
    EmptyStatement,
}

/// The titles of the parser's errors.
pub open spec fn parse_error_title(title: Seq<char>) -> bool {
    ||| title == "Expected '('"@
    ||| title == "Expected ')'"@
    ||| title == "Expected Expression"@
    ||| title == "Expected Funtion Arrow (-> / =>)"@
    ||| title == "Expected New Line"@
    ||| title == "Expected Identifier"@
    ||| title == "Invalid Assignment Target"@
    ||| title == "Unexpected Character"@
    ||| title == "Unterminated String"@
}

/// A string token the parser can take apart: it has a first byte and a
/// last one, each a character of its own.
pub open spec fn string_token_ok(value: &str) -> bool {
    let b = bytes_of(value);
    &&& b.len() >= 2
    &&& b[0] < 128
    &&& on_boundary(b, b.len() - 1)
}

impl Error {
    fn get_title(&self) -> (r: &'static str)
        requires
            *self != Error::EmptyStatement,
        ensures
            parse_error_title(r@),
            *self == Error::UnexpectedCharacter ==> r@ == "Unexpected Character"@,
    {
        proof {
            reveal_strlit("Unexpected Character");
        }
        match self {
            Error::ExpectedOpeningBracket => "Expected '('",
            Error::ExpectedClosingBracket => "Expected ')'",
            Error::ExpectedExpression => "Expected Expression",
            Error::ExpectedFunctionArrow => "Expected Funtion Arrow (-> / =>)",
            Error::ExpectedNewLine => "Expected New Line",
            Error::ExpectedIdentifier => "Expected Identifier",
            Error::InvalidAssignmentTarget => "Invalid Assignment Target",
            Error::UnexpectedCharacter => "Unexpected Character",
            Error::UnterminatedString => "Unterminated String",
            Error::EmptyStatement => "",
        }
    }

    /// The message, about the token where the parser stopped (its text,
    /// empty past the end).
    fn get_message(&self, value: &str) -> (r: String)
        requires
            *self != Error::EmptyStatement,
            *self == Error::UnterminatedString ==> string_token_ok(value),
        ensures
            *self == Error::UnexpectedCharacter ==> r@ == "Unknown character '"@ + value@ + "'"@,
            *self == Error::UnterminatedString ==> r@ == "Missing closing quote "@
                + vstd::utf8::decode_utf8(bytes_of(value).subrange(0, 1)),
            *self == Error::InvalidAssignmentTarget ==> r@
                == "Can't assign to an expression, only a variable"@,
            *self != Error::UnexpectedCharacter && *self != Error::UnterminatedString && *self
                != Error::InvalidAssignmentTarget ==> r@ == "but recieved '"@ + value@ + "'"@,
    {
        match self {
            Error::UnexpectedCharacter => {
                let mut message = String::from_str("Unknown character '");
                message.append(value);
                message.append("'");
                message
            },
            Error::UnterminatedString => {
                let mut message = String::from_str("Missing closing quote ");
                proof {
                    crate::text::lemma_ascii_next_boundary(value, 0);
                }
                let first = slice_str(value, 0, 1);
                proof {
                    vstd::utf8::encode_utf8_decode_utf8(first@);
                }
                message.append(first);
                message
            },
            Error::InvalidAssignmentTarget => String::from_str(
                "Can't assign to an expression, only a variable",
            ),
            _ => {
                let mut message = String::from_str("but recieved '");
                message.append(value);
                message.append("'");
                message
            },
        }
    }
}

// ---------------------------------------------------------------------
// The parser
// ---------------------------------------------------------------------

/// Tokens the parser can run over: few enough that a count of brackets
/// fits an `i32` and a position a little past them fits a `usize`, each
/// string token can be taken apart, and each token's text is short enough
/// that its indentation, a tab counting two, fits an `i32`.
pub open spec fn parsable(t: Seq<Token>) -> bool {
    &&& t.len() < i32::MAX
    &&& 2 * t.len() + 5 <= usize::MAX
    &&& forall|i: int| 0 <= i < t.len() ==> (#[trigger] t[i]).ttype != TokenType::EndOfFile
    &&& forall|i: int|
        0 <= i < t.len() ==> bytes_of((#[trigger] t[i]).value).len() <= 0x3fff_ffff
    &&& forall|i: int|
        0 <= i < t.len() && (#[trigger] t[i]).ttype == TokenType::String ==> string_token_ok(
            t[i].value,
        )
}

/// The width of the spaces and tabs in a text: one for a space, two for a
/// tab.
pub open spec fn indent_count(b: Seq<u8>) -> int
    decreases b.len(),
{
    if b.len() == 0 {
        0
    } else {
        indent_count(b.drop_last()) + if b.last() == 32 {
            1int
        } else if b.last() == 9 {
            2int
        } else {
            0int
        }
    }
}

proof fn lemma_indent_count_bound(b: Seq<u8>)
    ensures
        0 <= indent_count(b) <= 2 * b.len(),
    decreases b.len(),
{
    if b.len() > 0 {
        lemma_indent_count_bound(b.drop_last());
    }
}

/// The depth of the block that an indentation opens: half its width.
fn block_depth(whitespace: &str) -> (r: i32)
    requires
        bytes_of(whitespace).len() <= 0x3fff_ffff,
    ensures
        r == indent_count(bytes_of(whitespace)) / 2,
{
    let bytes = whitespace.as_bytes();
    let ghost b = bytes_of(whitespace);
    let mut depth: i32 = 0;
    let mut i: usize = 0;
    while i < bytes.len()
        invariant
            bytes@ == b,
            b.len() <= 0x3fff_ffff,
            i <= b.len(),
            depth == indent_count(b.subrange(0, i as int)),
            0 <= depth <= 2 * i,
        decreases b.len() - i,
    {
        assert(b.subrange(0, i + 1).drop_last() =~= b.subrange(0, i as int));
        if bytes[i] == 32 {
            depth = depth + 1;
        } else if bytes[i] == 9 {
            depth = depth + 2;
        }
        i = i + 1;
    }
    assert(b.subrange(0, b.len() as int) =~= b);
    depth / 2
}

/// The token is one of `t`.
pub open spec fn from_tokens(token: TokenRef, t: Seq<Token>) -> bool {
    exists|i: int| 0 <= i < t.len() && t[i] == *token
}

/// Every token an expression refers to is one of `t`.
pub open spec fn expr_in(e: Expr, t: Seq<Token>) -> bool
    decreases e, 0nat,
{
    match e {
        Expr::Assignment { identifier, expression } => from_tokens(identifier, t) && expr_in(
            *expression,
            t,
        ),
        Expr::Binary { operator, left, right } => from_tokens(operator, t) && expr_in(*left, t)
            && expr_in(*right, t),
        Expr::Call { token, end_token, expression, arguments } => from_tokens(token, t)
            && from_tokens(end_token, t) && expr_in(*expression, t) && exprs_in(arguments@, t),
        Expr::Function { token, parameters, body, .. } => from_tokens(token, t) && (forall|i: int|
            0 <= i < parameters@.len() ==> from_tokens(#[trigger] parameters@[i], t)) && stmt_in(
            *body,
            t,
        ),
        Expr::Group { token, end_token, expression } => from_tokens(token, t) && from_tokens(
            end_token,
            t,
        ) && expr_in(*expression, t),
        Expr::Literal { token, .. } => from_tokens(token, t),
        Expr::Unary { operator, expression } => from_tokens(operator, t) && expr_in(
            *expression,
            t,
        ),
        Expr::Variable { token } => from_tokens(token, t),
        Expr::Comment { token, expression } => from_tokens(token, t) && expr_in(*expression, t),
    }
}

pub open spec fn exprs_in(s: Seq<Expr>, t: Seq<Token>) -> bool
    decreases s, 0nat,
{
    if s.len() == 0 {
        true
    } else {
        exprs_in(s.subrange(0, s.len() - 1), t) && expr_in(s[s.len() - 1], t)
    }
}

/// Every token a statement refers to is one of `t`.
pub open spec fn stmt_in(s: Stmt, t: Seq<Token>) -> bool
    decreases s, 0nat,
{
    match s {
        Stmt::Block { body } => stmts_in(body@, t),
        Stmt::Declaration { token, identifier, expression } => from_tokens(token, t)
            && from_tokens(identifier, t) && match expression {
            Some(e) => expr_in(e, t),
            None => true,
        },
        Stmt::Expression { expression } => expr_in(expression, t),
        Stmt::If { if_token, else_token, condition, then, otherwise } => from_tokens(if_token, t)
            && match else_token {
            Some(e) => from_tokens(e, t),
            None => true,
        } && expr_in(condition, t) && stmt_in(*then, t) && match otherwise {
            Some(o) => stmt_in(*o, t),
            None => true,
        },
        Stmt::Return { token, expression } => from_tokens(token, t) && match expression {
            Some(e) => expr_in(e, t),
            None => true,
        },
        Stmt::While { token, condition, body } => from_tokens(token, t) && expr_in(condition, t)
            && stmt_in(*body, t),
        Stmt::Comment { token } => from_tokens(token, t),
    }
}

pub open spec fn stmts_in(s: Seq<Stmt>, t: Seq<Token>) -> bool
    decreases s, 0nat,
{
    if s.len() == 0 {
        true
    } else {
        stmts_in(s.subrange(0, s.len() - 1), t) && stmt_in(s[s.len() - 1], t)
    }
}

proof fn lemma_exprs_push(s: Seq<Expr>, e: Expr, t: Seq<Token>)
    requires
        exprs_in(s, t),
        expr_in(e, t),
    ensures
        exprs_in(s.push(e), t),
{
    assert(s.push(e).subrange(0, s.len() as int) =~= s);
}

proof fn lemma_stmts_push(s: Seq<Stmt>, e: Stmt, t: Seq<Token>)
    requires
        stmts_in(s, t),
        stmt_in(e, t),
    ensures
        stmts_in(s.push(e), t),
{
    assert(s.push(e).subrange(0, s.len() as int) =~= s);
}

struct Parser<'source> {
    tokens: &'source [Token<'source>],
    position: usize,
}

type ExpressionResult<'source> = Result<Expr<'source>, Error>;

type StatementResult<'source> = Result<Stmt<'source>, Error>;

impl<'source> Parser<'source> {
    spec fn t(&self) -> Seq<Token<'source>> {
        self.tokens@
    }

    spec fn pos(&self) -> int {
        self.position as int
    }

    /// What holds between the parser's steps: the tokens are parsable and
    /// the position is within twice their number and a little more.
    spec fn inv(&self) -> bool {
        &&& parsable(self.t())
        &&& self.position <= 2 * self.t().len() + 4
    }

    spec fn kind(&self) -> TokenType {
        kind_at(self.t(), self.pos())
    }

    spec fn same_tokens(&self, other: &Self) -> bool {
        self.tokens@ == other.tokens@
    }

    /// Where a statement that started at `start` may end.
    spec fn statement_end_ok(&self, start: int) -> bool {
        &&& start < self.t().len()
        &&& start < self.pos()
        &&& back_from(self.t(), self.pos()) >= start
        &&& self.pos() <= 2 * self.t().len() + 4 - start
    }

    /// Where an expression that started at `start` may end: on a settled
    /// position, not before it.
    spec fn expression_end_ok(&self, start: int) -> bool {
        &&& start < self.t().len()
        &&& start <= self.pos()
        &&& settled(self.t(), self.pos())
        &&& self.pos() <= 2 * self.t().len() + 1 - start
    }

    /// An unterminated string is reported at the string token.
    spec fn error_ok(&self, e: Error) -> bool {
        &&& e == Error::UnterminatedString ==> self.kind() == TokenType::String
        &&& self.inv()
    }

    /// After an expression was read from `old`: it ends on a settled
    /// position, and an error leaves the parser where it stopped.
    spec fn expression_after(&self, old: Self, r: ExpressionResult<'source>) -> bool {
        &&& self.same_tokens(&old)
        &&& self.inv()
        &&& r is Ok ==> self.expression_end_ok(old.pos())
        &&& r matches Ok(e) ==> expr_in(e, self.t())
        &&& r matches Err(e) ==> self.error_ok(e) && (e == Error::EmptyStatement ==> self.pos()
            >= self.t().len())
    }

    /// After a statement was read from `old`: something was read, and an
    /// empty statement is only found at the end.
    spec fn statement_after(&self, old: Self, r: StatementResult<'source>) -> bool {
        &&& self.same_tokens(&old)
        &&& self.inv()
        &&& r is Ok ==> self.statement_end_ok(old.pos())
        &&& r matches Ok(s) ==> stmt_in(s, self.t())
        &&& r matches Err(e) ==> self.error_ok(e) && (e == Error::EmptyStatement ==> self.pos()
            >= self.t().len())
    }

    fn at_end(&self) -> (r: bool)
        ensures
            r == (self.position >= self.tokens@.len()),
    {
        self.position >= self.tokens.len()
    }

    fn get(&self, position: usize) -> (r: Option<TokenRef<'source>>)
        ensures
            position < self.t().len() ==> r == Some(&self.t()[position as int]),
            position >= self.t().len() ==> r is None,
    {
        let tokens: &'source [Token<'source>] = self.tokens;
        if position < tokens.len() {
            Some(&tokens[position])
        } else {
            None
        }
    }

    fn kind_of(&self, position: usize) -> (r: TokenType)
        ensures
            r == kind_at(self.t(), position as int),
    {
        if position < self.tokens.len() {
            self.tokens[position].ttype
        } else {
            TokenType::EndOfFile
        }
    }

    fn current_kind(&self) -> (r: TokenType)
        ensures
            r == self.kind(),
    {
        self.kind_of(self.position)
    }

    /// The current token, which is not past the end.
    fn current_token(&self) -> (r: TokenRef<'source>)
        requires
            self.pos() < self.t().len(),
        ensures
            r == &self.t()[self.pos()],
            from_tokens(r, self.t()),
    {
        let tokens: &'source [Token<'source>] = self.tokens;
        assert(self.t()[self.pos()] == tokens@[self.pos()]);
        &tokens[self.position]
    }

    fn next(&mut self)
        requires
            old(self).position < usize::MAX,
        ensures
            final(self).same_tokens(old(self)),
            final(self).pos() == next_from(old(self).t(), old(self).pos()),
        decreases old(self).t().len() - old(self).pos(),
    {
        self.position = self.position + 1;
        if self.position < self.tokens.len() && self.tokens[self.position].ttype
            == TokenType::Whitespace {
            self.next();
        }
    }

    fn back(&mut self)
        requires
            back_from(old(self).t(), old(self).pos()) >= 0,
        ensures
            final(self).same_tokens(old(self)),
            final(self).pos() == back_from(old(self).t(), old(self).pos()),
        decreases old(self).pos(),
    {
        self.position = self.position - 1;
        if self.position < self.tokens.len() && self.tokens[self.position].ttype
            == TokenType::Whitespace {
            self.back();
        }
    }

    /// The current token, then moves on.
    fn advance(&mut self) -> (r: TokenRef<'source>)
        requires
            old(self).inv(),
            old(self).pos() < old(self).t().len(),
        ensures
            final(self).same_tokens(old(self)),
            final(self).inv(),
            r == &old(self).t()[old(self).pos()],
            from_tokens(r, old(self).t()),
            final(self).pos() == next_from(old(self).t(), old(self).pos()),
            final(self).pos() <= final(self).t().len(),
            final(self).pos() > old(self).pos(),
            settled(final(self).t(), final(self).pos()),
    {
        let token = self.current_token();
        proof {
            lemma_next_from(self.t(), self.pos());
        }
        self.next();
        token
    }

    fn expect(&self, token_type: TokenType, message: Error) -> (r: Result<TokenRef<'source>, Error>)
        requires
            token_type != TokenType::EndOfFile,
        ensures
            r is Ok <==> self.kind() == token_type,
            r matches Ok(tok) ==> self.pos() < self.t().len() && tok == &self.t()[self.pos()]
                && from_tokens(tok, self.t()),
            r matches Err(e) ==> e == message,
    {
        if self.current_kind() == token_type {
            Ok(self.current_token())
        } else {
            Err(message)
        }
    }

    fn consume(&mut self, token_type: TokenType, message: Error) -> (r: Result<
        TokenRef<'source>,
        Error,
    >)
        requires
            old(self).inv(),
            token_type != TokenType::EndOfFile,
        ensures
            final(self).same_tokens(old(self)),
            final(self).inv(),
            r is Ok <==> old(self).kind() == token_type,
            r matches Ok(tok) ==> from_tokens(tok, old(self).t()),
            r matches Ok(tok) ==> old(self).pos() < old(self).t().len() && tok == &old(
                self,
            ).t()[old(self).pos()] && final(self).pos() == next_from(old(self).t(), old(self).pos())
                && final(self).pos() <= final(self).t().len() && final(self).pos() > old(self).pos()
                && settled(final(self).t(), final(self).pos()),
            r matches Err(e) ==> e == message && final(self).pos() == old(self).pos(),
    {
        let result = match self.expect(token_type, message) {
            Ok(value) => value,
            Err(error) => return Err(error),
        };
        proof {
            lemma_next_from(self.t(), self.pos());
        }
        self.next();
        Ok(result)
    }

    fn consume_next(&mut self, token_type: TokenType, message: Error) -> (r: Result<
        TokenRef<'source>,
        Error,
    >)
        requires
            old(self).inv(),
            old(self).pos() + 1 <= 2 * old(self).t().len() + 4,
            token_type != TokenType::EndOfFile,
        ensures
            final(self).same_tokens(old(self)),
            final(self).inv(),
            ({
                let p = next_from(old(self).t(), old(self).pos());
                &&& r is Ok <==> kind_at(old(self).t(), p) == token_type
                &&& r matches Ok(tok) ==> from_tokens(tok, old(self).t())
                &&& r matches Ok(tok) ==> p < old(self).t().len() && tok == &old(self).t()[p]
                    && final(self).pos() == next_from(old(self).t(), p) && final(self).pos()
                    <= final(self).t().len()
                &&& r matches Err(e) ==> e == message && final(self).pos() == p
                &&& old(self).pos() < p
                &&& settled(old(self).t(), p)
                &&& r is Ok ==> final(self).pos() > p && settled(old(self).t(), final(self).pos())
                &&& old(self).pos() < old(self).t().len() ==> p <= old(self).t().len()
            }),
    {
        proof {
            lemma_next_from(self.t(), self.pos());
        }
        self.next();
        self.consume(token_type, message)
    }

    /// Moves on past the current token when it is of the kind.
    fn matches(&mut self, token_type: TokenType) -> (r: bool)
        requires
            old(self).inv(),
            token_type != TokenType::EndOfFile,
        ensures
            final(self).same_tokens(old(self)),
            final(self).inv(),
            r == (old(self).kind() == token_type),
            r ==> old(self).pos() < old(self).t().len() && final(self).pos() == next_from(
                old(self).t(),
                old(self).pos(),
            ) && final(self).pos() <= final(self).t().len() && final(self).pos() > old(self).pos()
                && settled(final(self).t(), final(self).pos()),
            !r ==> final(self).pos() == old(self).pos(),
            final(self).pos() >= old(self).pos(),
    {
        let matches = self.current_kind() == token_type;
        if matches {
            proof {
                lemma_next_from(self.t(), self.pos());
            }
            self.next();
        }
        matches
    }

    /// Passes the end of a line, or the end of the file.
    fn expect_newline(&mut self) -> (r: Result<(), Error>)
        requires
            old(self).inv(),
            old(self).pos() + 2 <= 2 * old(self).t().len() + 4,
        ensures
            final(self).same_tokens(old(self)),
            final(self).inv(),
            r is Ok ==> final(self).pos() > old(self).pos() && final(self).pos() <= if old(
                self,
            ).pos() < old(self).t().len() {
                old(self).t().len() + 1int
            } else {
                old(self).pos() + 2
            },
            r is Ok && settled(old(self).t(), old(self).pos()) ==> back_from(
                final(self).t(),
                final(self).pos(),
            ) >= old(self).pos(),
            r matches Err(e) ==> e == Error::ExpectedNewLine,
            kind_at(old(self).t(), old(self).pos()) != TokenType::EndOfLine && next_from(old(self).t(), old(self).pos()) >= old(self).t().len() ==> r is Ok && final(self).pos() >= old(self).t().len(),
    {
        let ghost t = self.t();
        let ghost p = self.pos();
        proof {
            lemma_next_from(t, p);
        }
        if self.matches(TokenType::EndOfLine) {
            proof {
                lemma_back_at_least(t, p, p, self.pos());
            }
            return Ok(());
        }
        self.next();
        let current = self.current_kind();
        if current == TokenType::EndOfLine || current == TokenType::EndOfFile {
            let ghost q = self.pos();
            proof {
                lemma_next_from(t, q);
            }
            self.next();
            proof {
                if settled(t, p) {
                    lemma_back_at_least(t, p, p, self.pos());
                }
            }
            Ok(())
        } else {
            Err(Error::ExpectedNewLine)
        }
    }

    /// Whether the bracket at the position opens the parameters of a
    /// function: its closing bracket is followed by an arrow.
    fn is_function_bracket(&self) -> (r: bool)
        requires
            self.inv(),
            self.pos() < self.t().len(),
        ensures
            r == function_bracket_at(self.t(), self.pos()),
    {
        let ghost n = self.t().len();
        let mut position: usize = self.position + 1;
        let mut depth: i32 = 0;
        let mut done = false;
        let mut closed = false;
        while !done
            invariant
                self.inv(),
                n == self.t().len(),
                position <= n + 1,
                !done ==> position <= n,
                -(position as int) <= depth <= position,
                !done ==> bracket_end(self.t(), self.pos() + 1, 0) == bracket_end(
                    self.t(),
                    position as int,
                    depth as int,
                ),
                !done ==> !closed,
                done && closed ==> bracket_end(self.t(), self.pos() + 1, 0) == position,
                done && !closed ==> bracket_end(self.t(), self.pos() + 1, 0) == -1,
            decreases if done {
                0int
            } else {
                n + 2 - position
            },
        {
            let kind = self.kind_of(position);
            if depth == 0 && kind == TokenType::RightParen {
                position = position + 1;
                done = true;
                closed = true;
            } else if kind == TokenType::EndOfFile {
                done = true;
            } else {
                if kind == TokenType::RightParen {
                    depth = depth + 1;
                } else if kind == TokenType::LeftParen {
                    depth = depth - 1;
                }
                position = position + 1;
            }
        }
        if !closed {
            return false;
        }
        while self.kind_of(position) == TokenType::Whitespace
            invariant
                self.inv(),
                n == self.t().len(),
                position <= n + 1,
                0 <= bracket_end(self.t(), self.pos() + 1, 0),
                ws_end(self.t(), bracket_end(self.t(), self.pos() + 1, 0)) == ws_end(
                    self.t(),
                    position as int,
                ),
            decreases n + 1 - position,
        {
            position = position + 1;
        }
        let kind = self.kind_of(position);
        kind == TokenType::FatRightArrow || kind == TokenType::RightArrow
    }

    spec fn depth_at_spec(&self, position: int) -> int {
        if 0 <= position < self.t().len() {
            indent_count(bytes_of(self.t()[position].value)) / 2
        } else {
            0
        }
    }

    /// The indentation depth of the text of the token at `position`.
    fn depth_at(&self, position: usize) -> (r: i32)
        requires
            self.inv(),
        ensures
            r == self.depth_at_spec(position as int),
    {
        match self.get(position) {
            Some(token) => block_depth(token.value),
            None => 0,
        }
    }

    // -----------------------------------------------------------------
    // Expressions
    // -----------------------------------------------------------------

    fn expression(&mut self) -> (r: ExpressionResult<'source>)
        requires
            old(self).inv(),
            old(self).pos() <= old(self).t().len(),
        ensures
            final(self).expression_after(*old(self), r),
            value_kind(old(self).t(), old(self).pos()) && next_from(old(self).t(), old(self).pos()) >= old(self).t().len() ==> r is Ok && final(self).pos() == old(self).pos(),
            value_kind(old(self).t(), old(self).pos()) && next_from(old(self).t(), old(self).pos()) >= old(self).t().len() ==> (r matches Ok(e) && literal_token_of(old(self).t(), old(self).pos() as int, e)),
            kind_at(old(self).t(), old(self).pos()) == TokenType::Unknown ==> (r matches Err(e) && e == Error::UnexpectedCharacter) && final(self).pos() == old(self).pos(),
        decreases rest(old(self).t(), old(self).pos()), 6nat,
    {
        self.parse_expression(Precedence::Assignment)
    }

    fn parse_expression(&mut self, precedence: Precedence) -> (r: ExpressionResult<'source>)
        requires
            old(self).inv(),
            old(self).pos() <= old(self).t().len(),
            precedence.rank() >= 2,
        ensures
            final(self).expression_after(*old(self), r),
            value_kind(old(self).t(), old(self).pos()) && next_from(old(self).t(), old(self).pos()) >= old(self).t().len() ==> r is Ok && final(self).pos() == old(self).pos(),
            value_kind(old(self).t(), old(self).pos()) && next_from(old(self).t(), old(self).pos()) >= old(self).t().len() ==> (r matches Ok(e) && literal_token_of(old(self).t(), old(self).pos() as int, e)),
            kind_at(old(self).t(), old(self).pos()) == TokenType::Unknown ==> (r matches Err(e) && e == Error::UnexpectedCharacter) && final(self).pos() == old(self).pos(),
        decreases rest(old(self).t(), old(self).pos()), 5nat,
    {
        let ghost t = self.t();
        let ghost n = t.len() as int;
        let ghost start = self.pos();
        self.matches(TokenType::EndOfLine);
        let token_type = self.current_kind();
        let can_assign = precedence.level() <= 2;
        let mut previous = match self.prefix_rule(token_type, can_assign) {
            Ok(value) => value,
            Err(error) => return Err(error),
        };
        let ghost c = value_kind(t, start) && next_from(t, start) >= n;
        let mut going = true;
        let ghost mut q: int = self.pos();
        while going
            invariant
                c == (value_kind(t, start) && next_from(t, start) >= n),
                c ==> q == start,
                c && going ==> self.pos() == start,
                c ==> literal_token_of(t, start, previous),
                kind_at(t, start) != TokenType::Unknown,
                self.inv(),
                self.t() == t,
                t == old(self).t(),
                start == old(self).pos(),
                n == t.len(),
                precedence.rank() >= 2,
                expr_in(previous, t),
                start < n,
                start <= q,
                settled(t, q),
                q <= 2 * n + 1 - start,
                going ==> self.pos() == q,
                !going ==> self.pos() == next_from(t, q),
            decreases if going {
                rest(t, self.pos()) + 1
            } else {
                0
            },
        {
            proof {
                q = self.pos();
                lemma_next_from(t, q);
            }
            self.next();
            let kind = self.current_kind();
            if precedence.level() <= Precedence::from(kind).level() {
                match self.infix_rule(kind, previous) {
                    Err(error) => return Err(error),
                    Ok(Some(value)) => {
                        previous = value;
                        proof {
                            q = self.pos();
                        }
                    },
                    Ok(None) => {
                        proof {
                            assert(false);
                        }
                        return Err(Error::ExpectedExpression);
                    },
                }
            } else {
                going = false;
            }
        }
        proof {
            lemma_next_back(t, q);
        }
        self.back();
        if can_assign && self.matches(TokenType::Equal) {
            Err(Error::InvalidAssignmentTarget)
        } else {
            Ok(previous)
        }
    }

    fn prefix_rule(&mut self, token_type: TokenType, can_assign: bool) -> (r: ExpressionResult<
        'source,
    >)
        requires
            old(self).inv(),
            old(self).pos() <= old(self).t().len(),
            token_type == old(self).kind(),
        ensures
            final(self).expression_after(*old(self), r),
            value_kind(old(self).t(), old(self).pos()) ==> r is Ok && final(self).pos() == old(self).pos(),
            value_kind(old(self).t(), old(self).pos()) ==> (r matches Ok(e) && literal_token_of(old(self).t(), old(self).pos() as int, e)),
            kind_at(old(self).t(), old(self).pos()) == TokenType::Unknown ==> (r matches Err(e) && e == Error::UnexpectedCharacter) && final(self).pos() == old(self).pos(),
        decreases rest(old(self).t(), old(self).pos()), 4nat,
    {
        match token_type {
            TokenType::LeftParen => self.grouping(),
            TokenType::Minus | TokenType::Bang => self.unary(),
            TokenType::Identifier => self.variable(can_assign),
            TokenType::Number
            | TokenType::String
            | TokenType::True
            | TokenType::False
            | TokenType::Null => self.literal(),
            TokenType::Unknown => Err(Error::UnexpectedCharacter),
            _ => Err(Error::ExpectedExpression),
        }
    }

    fn infix_rule(&mut self, token_type: TokenType, previous: Expr<'source>) -> (r: Result<
        Option<Expr<'source>>,
        Error,
    >)
        requires
            old(self).inv(),
            old(self).pos() < old(self).t().len(),
            token_type == old(self).kind(),
            infix(token_type),
            expr_in(previous, old(self).t()),
        ensures
            final(self).same_tokens(old(self)),
            final(self).inv(),
            r matches Ok(v) ==> v is Some && final(self).expression_end_ok(old(self).pos()),
            r matches Ok(v) ==> v matches Some(e) && expr_in(e, old(self).t()),
            r matches Err(e) ==> final(self).error_ok(e) && (e == Error::EmptyStatement
                ==> final(self).pos() >= final(self).t().len()),
        decreases rest(old(self).t(), old(self).pos()), 4nat,
    {
        match token_type {
            TokenType::LeftParen => match self.call(previous) {
                Ok(value) => Ok(Some(value)),
                Err(error) => Err(error),
            },
            TokenType::Comment => Ok(Some(self.comment(previous))),
            TokenType::Plus
            | TokenType::Minus
            | TokenType::Star
            | TokenType::Slash
            | TokenType::BangEqual
            | TokenType::EqualEqual
            | TokenType::Greater
            | TokenType::GreaterEqual
            | TokenType::Less
            | TokenType::LessEqual
            | TokenType::And
            | TokenType::Or
            | TokenType::QuestionQuestion => match self.binary(previous) {
                Ok(value) => Ok(Some(value)),
                Err(error) => Err(error),
            },
            _ => Ok(None),
        }
    }

    fn function(&mut self) -> (r: ExpressionResult<'source>)
        requires
            old(self).inv(),
            old(self).pos() < old(self).t().len(),
        ensures
            final(self).expression_after(*old(self), r),
        decreases rest(old(self).t(), old(self).pos()), 2nat,
    {
        let ghost t = self.t();
        let ghost n = t.len() as int;
        let ghost start = self.pos();
        let token = self.advance();
        let mut parameters: Vec<TokenRef<'source>> = Vec::new();
        let mut done = false;
        let ghost mut closed: int = start;
        while !done
            invariant
                self.inv(),
                self.t() == t,
                t == old(self).t(),
                start == old(self).pos(),
                n == t.len(),
                start < n,
                start < self.pos() <= n,
                done ==> start < closed < self.pos() && settled(t, closed),
                forall|i: int| 0 <= i < parameters@.len() ==> from_tokens(#[trigger] parameters@[i], t),
            decreases if done {
                0
            } else {
                rest(t, self.pos()) + 1
            },
        {
            self.matches(TokenType::EndOfLine);
            let ghost here = self.pos();
            if self.matches(TokenType::RightParen) {
                proof {
                    closed = here;
                }
                done = true;
            } else {
                let parameter = match self.consume(TokenType::Identifier, Error::ExpectedIdentifier) {
                    Ok(value) => value,
                    Err(error) => return Err(error),
                };
                parameters.push(parameter);
                if !self.matches(TokenType::Comma) {
                    let ghost at = self.pos();
                    if let Err(error) = self.consume(TokenType::RightParen, Error::ExpectedClosingBracket) {
                        return Err(error);
                    }
                    proof {
                        closed = at;
                    }
                    done = true;
                }
            }
        }
        let ghost arrow = self.pos();
        let body = if self.matches(TokenType::FatRightArrow) {
            let ghost arrow_end = self.pos();
            let return_token = self.get(self.position);
            let expression = match self.expression() {
                Ok(value) => value,
                Err(error) => return Err(error),
            };
            match return_token {
                Some(return_token) => {
                    assert(t[arrow_end] == *return_token);
                    assert(from_tokens(return_token, t));
                    let body = Stmt::Return { token: return_token, expression: Some(expression) };
                    assert(stmt_in(body, t));
                    body
                },
                None => {
                    proof {
                        assert(false);
                    }
                    return Err(Error::ExpectedExpression);
                },
            }
        } else if self.matches(TokenType::RightArrow) {
            self.matches(TokenType::EndOfLine);
            let ghost body_start = self.pos();
            let statement = match self.statement() {
                Ok(value) => value,
                Err(error) => return Err(error),
            };
            proof {
                lemma_next_from(t, arrow);
                if body_start < n {
                    lemma_back_from(t, self.pos());
                } else {
                    lemma_back_at_least(t, arrow, arrow, self.pos());
                    lemma_back_from(t, self.pos());
                }
            }
            self.back();
            statement
        } else {
            return Err(Error::ExpectedFunctionArrow);
        };
        assert(stmt_in(body, t));
        let function = Expr::Function { token, body: Box::new(body), parameters, name: None };
        assert(expr_in(function, t));
        Ok(function)
    }

    fn grouping(&mut self) -> (r: ExpressionResult<'source>)
        requires
            old(self).inv(),
            old(self).pos() < old(self).t().len(),
        ensures
            final(self).expression_after(*old(self), r),
        decreases rest(old(self).t(), old(self).pos()), 3nat,
    {
        if self.is_function_bracket() {
            return self.function();
        }
        let token = self.advance();
        let expression = match self.expression() {
            Ok(value) => value,
            Err(error) => return Err(error),
        };
        proof {
            lemma_next_from(self.t(), self.pos());
        }
        self.next();
        let end_token = match self.expect(TokenType::RightParen, Error::ExpectedClosingBracket) {
            Ok(value) => value,
            Err(error) => return Err(error),
        };
        Ok(Expr::Group { token, end_token, expression: Box::new(expression) })
    }

    fn unary(&mut self) -> (r: ExpressionResult<'source>)
        requires
            old(self).inv(),
            old(self).pos() < old(self).t().len(),
        ensures
            final(self).expression_after(*old(self), r),
        decreases rest(old(self).t(), old(self).pos()), 2nat,
    {
        let token = self.advance();
        let expression = match self.parse_expression(Precedence::Unary) {
            Ok(value) => value,
            Err(error) => return Err(error),
        };
        Ok(Expr::Unary { operator: token, expression: Box::new(expression) })
    }

    fn literal(&mut self) -> (r: ExpressionResult<'source>)
        requires
            old(self).inv(),
            old(self).pos() < old(self).t().len(),
            old(self).kind() == TokenType::Number || old(self).kind() == TokenType::String || old(
                self,
            ).kind() == TokenType::True || old(self).kind() == TokenType::False || old(self).kind()
                == TokenType::Null,
        ensures
            final(self).expression_after(*old(self), r),
            final(self).pos() == old(self).pos(),
            value_kind(old(self).t(), old(self).pos()) ==> r is Ok,
            value_kind(old(self).t(), old(self).pos()) ==> (r matches Ok(e) && literal_token_of(old(self).t(), old(self).pos() as int, e)),
    {
        let token = self.current_token();
        let string = token.value;
        let value = if token.ttype != TokenType::String {
            string
        } else {
            let ghost b = bytes_of(string);
            let bytes = string.as_bytes();
            let length = bytes.len();
            if bytes[0] == bytes[length - 1] {
                proof {
                    crate::text::lemma_ascii_next_boundary(string, 0);
                }
                slice_str(string, 1, length - 1)
            } else {
                return Err(Error::UnterminatedString);
            }
        };
        Ok(Expr::Literal { token, value })
    }

    fn variable(&mut self, can_assign: bool) -> (r: ExpressionResult<'source>)
        requires
            old(self).inv(),
            old(self).pos() < old(self).t().len(),
            old(self).kind() == TokenType::Identifier,
        ensures
            final(self).expression_after(*old(self), r),
        decreases rest(old(self).t(), old(self).pos()), 2nat,
    {
        let ghost t = self.t();
        let ghost start = self.pos();
        let identifier = self.current_token();
        proof {
            lemma_next_from(t, start);
        }
        self.next();
        let kind = self.current_kind();
        let is_additional_operator = kind == TokenType::PlusEqual || kind == TokenType::MinusEqual
            || kind == TokenType::StarEqual || kind == TokenType::SlashEqual;
        if can_assign && is_additional_operator {
            let operator = self.advance();
            let right = match self.expression() {
                Ok(value) => value,
                Err(error) => return Err(error),
            };
            let left = Expr::Variable { token: identifier };
            assert(expr_in(left, t));
            let binary = Expr::Binary { operator, left: Box::new(left), right: Box::new(right) };
            assert(expr_in(binary, t));
            Ok(Expr::Assignment { identifier, expression: Box::new(binary) })
        } else if self.matches(TokenType::Equal) && can_assign {
            let expression = match self.expression() {
                Ok(value) => value,
                Err(error) => return Err(error),
            };
            Ok(Expr::Assignment { identifier, expression: Box::new(expression) })
        } else {
            proof {
                if self.pos() == next_from(t, start) {
                    lemma_next_back(t, start);
                } else {
                    lemma_next_back(t, next_from(t, start));
                    lemma_next_from(t, next_from(t, start));
                }
            }
            self.back();
            Ok(Expr::Variable { token: identifier })
        }
    }

    fn call(&mut self, previous: Expr<'source>) -> (r: ExpressionResult<'source>)
        requires
            expr_in(previous, old(self).t()),
            old(self).inv(),
            old(self).pos() < old(self).t().len(),
        ensures
            final(self).expression_after(*old(self), r),
        decreases rest(old(self).t(), old(self).pos()), 2nat,
    {
        let ghost t = self.t();
        let ghost n = t.len() as int;
        let ghost start = self.pos();
        let token = self.advance();
        let mut arguments: Vec<Expr<'source>> = Vec::new();
        let mut end_token = token;
        let mut found = false;
        while !found
            invariant
                self.inv(),
                self.t() == t,
                t == old(self).t(),
                start == old(self).pos(),
                n == t.len(),
                start < n,
                start < self.pos(),
                !found ==> self.pos() <= n,
                found ==> self.pos() < n && settled(t, self.pos()),
                from_tokens(token, t),
                from_tokens(end_token, t),
                exprs_in(arguments@, t),
            decreases if found {
                0
            } else {
                rest(t, self.pos()) + 1
            },
        {
            self.matches(TokenType::EndOfLine);
            if self.current_kind() == TokenType::RightParen {
                end_token = self.current_token();
                found = true;
            } else {
                let argument = match self.expression() {
                    Ok(value) => value,
                    Err(error) => return Err(error),
                };
                proof {
                    lemma_exprs_push(arguments@, argument, t);
                }
                arguments.push(argument);
                proof {
                    lemma_next_from(t, self.pos());
                }
                self.next();
                if !self.matches(TokenType::Comma) {
                    end_token = match self.expect(TokenType::RightParen, Error::ExpectedClosingBracket) {
                        Ok(value) => value,
                        Err(error) => return Err(error),
                    };
                    found = true;
                }
            }
        }
        Ok(Expr::Call { expression: Box::new(previous), token, arguments, end_token })
    }

    fn comment(&mut self, previous: Expr<'source>) -> (r: Expr<'source>)
        requires
            expr_in(previous, old(self).t()),
            old(self).inv(),
            old(self).pos() < old(self).t().len(),
            old(self).kind() == TokenType::Comment,
        ensures
            final(self).same_tokens(old(self)),
            final(self).inv(),
            final(self).expression_end_ok(old(self).pos()),
            expr_in(r, old(self).t()),
            r == (Expr::Comment { expression: Box::new(previous), token: &old(self).t()[old(self).pos()] }),
    {
        let token = self.current_token();
        Expr::Comment { expression: Box::new(previous), token }
    }

    fn binary(&mut self, previous: Expr<'source>) -> (r: ExpressionResult<'source>)
        requires
            expr_in(previous, old(self).t()),
            old(self).inv(),
            old(self).pos() < old(self).t().len(),
            binary_operator(old(self).kind()),
        ensures
            final(self).expression_after(*old(self), r),
            r matches Ok(e) ==> (e matches Expr::Binary { operator, left, .. } && *operator
                == old(self).t()[old(self).pos()] && *left == previous),
        decreases rest(old(self).t(), old(self).pos()), 2nat,
    {
        let operator = self.advance();
        let precedence = Precedence::from(operator.ttype);
        let right = match self.parse_expression(precedence.next()) {
            Ok(value) => value,
            Err(error) => return Err(error),
        };
        Ok(Expr::Binary { operator, left: Box::new(previous), right: Box::new(right) })
    }

    // -----------------------------------------------------------------
    // Statements
    // -----------------------------------------------------------------

    fn statement(&mut self) -> (r: StatementResult<'source>)
        requires
            old(self).inv(),
            old(self).pos() <= old(self).t().len(),
        ensures
            final(self).same_tokens(old(self)),
            final(self).inv(),
            r is Ok && old(self).pos() < old(self).t().len() ==> final(self).statement_end_ok(
                old(self).pos(),
            ),
            r is Ok && old(self).pos() >= old(self).t().len() ==> final(self).pos() == old(
                self,
            ).pos(),
            r matches Ok(s) ==> stmt_in(s, old(self).t()),
            r matches Err(e) ==> final(self).error_ok(e) && (e == Error::EmptyStatement
                ==> final(self).pos() >= final(self).t().len()),
            (old(self).pos() == 0 || kind_at(old(self).t(), old(self).pos() - 1) != TokenType::Whitespace) && value_kind(old(self).t(), old(self).pos()) && next_from(old(self).t(), old(self).pos()) >= old(self).t().len() ==> r is Ok && final(self).pos() >= old(self).t().len(),
            (old(self).pos() == 0 || kind_at(old(self).t(), old(self).pos() - 1) != TokenType::Whitespace) && value_kind(old(self).t(), old(self).pos()) && next_from(old(self).t(), old(self).pos()) >= old(self).t().len() ==> (r matches Ok(st) && (st matches Stmt::Expression { expression } && literal_token_of(old(self).t(), old(self).pos() as int, expression))),
            (old(self).pos() == 0 || kind_at(old(self).t(), old(self).pos() - 1) != TokenType::Whitespace) && kind_at(old(self).t(), old(self).pos()) == TokenType::Unknown ==> (r matches Err(e) && e == Error::UnexpectedCharacter) && final(self).pos() == old(self).pos(),
        decreases rest(old(self).t(), old(self).pos()), 9nat,
    {
        let ghost t = self.t();
        let ghost n = t.len() as int;
        let ghost start = self.pos();
        let ghost mut last_line_end: int = start;
        let ghost c = (start == 0 || kind_at(t, start - 1) != TokenType::Whitespace) && value_kind(
            t,
            start,
        ) && next_from(t, start) >= n;
        let ghost u = (start == 0 || kind_at(t, start - 1) != TokenType::Whitespace) && kind_at(
            t,
            start,
        ) == TokenType::Unknown;
        while self.current_kind() == TokenType::EndOfLine
            invariant
                c == ((start == 0 || kind_at(t, start - 1) != TokenType::Whitespace) && value_kind(
                    t,
                    start,
                ) && next_from(t, start) >= n),
                c ==> self.pos() == start,
                u == ((start == 0 || kind_at(t, start - 1) != TokenType::Whitespace) && kind_at(
                    t,
                    start,
                ) == TokenType::Unknown),
                u ==> self.pos() == start,
                self.inv(),
                self.t() == t,
                t == old(self).t(),
                start == old(self).pos(),
                n == t.len(),
                start <= self.pos() <= n,
                self.pos() > start ==> start <= last_line_end < self.pos() && settled(
                    t,
                    last_line_end,
                ) && start < n,
            decreases rest(t, self.pos()),
        {
            proof {
                last_line_end = self.pos();
                lemma_next_from(t, last_line_end);
            }
            self.next();
        }
        let ghost first = self.pos();
        let last = if self.position >= 1 {
            self.position - 1
        } else {
            0
        };
        let depth = self.depth_at(last);
        if self.kind_of(last) != TokenType::Whitespace || depth == 0 {
            let result = self.stmt();
            proof {
                if result is Ok && first > start {
                    lemma_back_at_least(t, start, last_line_end, self.pos());
                }
            }
            return result;
        }
        let mut statements: Vec<Stmt<'source>> = Vec::new();
        let mut last_position = last;
        assert(!c);
        assert(!u);
        while self.kind_of(last_position) == TokenType::Whitespace && self.depth_at(last_position)
            >= depth && self.current_kind() != TokenType::EndOfFile
            invariant
                !c,
                !u,
                u == ((start == 0 || kind_at(t, start - 1) != TokenType::Whitespace) && kind_at(
                    t,
                    start,
                ) == TokenType::Unknown),
                c == ((start == 0 || kind_at(t, start - 1) != TokenType::Whitespace) && value_kind(
                    t,
                    start,
                ) && next_from(t, start) >= n),
                self.inv(),
                self.t() == t,
                t == old(self).t(),
                start == old(self).pos(),
                n == t.len(),
                start <= first <= n,
                first > start ==> start <= last_line_end < first && settled(t, last_line_end)
                    && start < n,
                statements@.len() == 0 ==> self.pos() == first && last_position == last,
                statements@.len() > 0 ==> first < n && self.pos() > first && back_from(
                    t,
                    self.pos(),
                ) >= first && self.pos() <= 2 * n + 4 - first && last_position == self.pos() - 1,
                depth == self.depth_at_spec(last as int),
                stmts_in(statements@, t),
            decreases rest(t, self.pos()),
        {
            let ghost here = self.pos();
            if self.depth_at(last_position) > depth {
                let statement = match self.statement() {
                    Ok(value) => value,
                    Err(error) => return Err(error),
                };
                proof {
                    lemma_stmts_push(statements@, statement, t);
                }
                statements.push(statement);
            } else {
                let statement = match self.stmt() {
                    Ok(value) => value,
                    Err(error) => return Err(error),
                };
                proof {
                    lemma_stmts_push(statements@, statement, t);
                }
                statements.push(statement);
            }
            last_position = self.position - 1;
        }
        proof {
            if statements@.len() == 0 && start < n {
                lemma_back_at_least(t, start, last_line_end, self.pos());
            }
        }
        Ok(Stmt::Block { body: statements })
    }

    fn stmt(&mut self) -> (r: StatementResult<'source>)
        requires
            old(self).inv(),
            old(self).pos() <= old(self).t().len(),
        ensures
            final(self).statement_after(*old(self), r),
            value_kind(old(self).t(), old(self).pos()) && next_from(old(self).t(), old(self).pos()) >= old(self).t().len() ==> r is Ok && final(self).pos() >= old(self).t().len(),
            value_kind(old(self).t(), old(self).pos()) && next_from(old(self).t(), old(self).pos()) >= old(self).t().len() ==> (r matches Ok(st) && (st matches Stmt::Expression { expression } && literal_token_of(old(self).t(), old(self).pos() as int, expression))),
            kind_at(old(self).t(), old(self).pos()) == TokenType::Unknown ==> (r matches Err(e) && e == Error::UnexpectedCharacter) && final(self).pos() == old(self).pos(),
        decreases rest(old(self).t(), old(self).pos()), 8nat,
    {
        match self.current_kind() {
            TokenType::Let => self.var_declaration(),
            TokenType::If => self.if_statement(),
            TokenType::Return => self.return_statement(),
            TokenType::While => self.while_statement(),
            TokenType::EndOfFile => Err(Error::EmptyStatement),
            TokenType::Comment => self.comment_statement(),
            _ => self.expression_statement(),
        }
    }

    fn var_declaration(&mut self) -> (r: StatementResult<'source>)
        requires
            old(self).inv(),
            old(self).pos() < old(self).t().len(),
        ensures
            final(self).statement_after(*old(self), r),
        decreases rest(old(self).t(), old(self).pos()), 7nat,
    {
        let ghost t = self.t();
        let ghost n = t.len() as int;
        let ghost start = self.pos();
        let token = self.current_token();
        let identifier = match self.consume_next(TokenType::Identifier, Error::ExpectedIdentifier) {
            Ok(value) => value,
            Err(error) => return Err(error),
        };
        let ghost at_identifier = next_from(t, start);
        proof {
            lemma_next_from(t, start);
            lemma_next_from(t, at_identifier);
        }
        let expression = if self.matches(TokenType::Equal) {
            match self.expression() {
                Ok(value) => Some(value),
                Err(error) => return Err(error),
            }
        } else {
            proof {
                lemma_next_back(t, at_identifier);
            }
            self.back();
            None
        };
        let ghost before_newline = self.pos();
        assert(settled(t, before_newline));
        if let Err(error) = self.expect_newline() {
            return Err(error);
        }
        let expression = match expression {
            Some(Expr::Function { token, parameters, body, .. }) => {
                let named = Expr::Function { token, parameters, body, name: Some(identifier.value) };
                assert(expr_in(named, t));
                Some(named)
            },
            other => other,
        };
        Ok(Stmt::Declaration { token, identifier, expression })
    }

    fn return_statement(&mut self) -> (r: StatementResult<'source>)
        requires
            old(self).inv(),
            old(self).pos() < old(self).t().len(),
        ensures
            final(self).statement_after(*old(self), r),
        decreases rest(old(self).t(), old(self).pos()), 7nat,
    {
        let ghost t = self.t();
        let ghost start = self.pos();
        let token = self.advance();
        let ghost after = self.pos();
        let expression = if self.matches(TokenType::EndOfLine) {
            proof {
                lemma_back_at_least(t, start, after, self.pos());
                lemma_next_from(t, after);
            }
            None
        } else {
            let expression = match self.expression() {
                Ok(value) => value,
                Err(error) => return Err(error),
            };
            if let Err(error) = self.expect_newline() {
                return Err(error);
            }
            Some(expression)
        };
        Ok(Stmt::Return { token, expression })
    }

    #[verifier::rlimit(40)]
    fn if_statement(&mut self) -> (r: StatementResult<'source>)
        requires
            old(self).inv(),
            old(self).pos() < old(self).t().len(),
        ensures
            final(self).statement_after(*old(self), r),
            r matches Ok(st) ==> (st matches Stmt::If { else_token, otherwise, .. } && (otherwise is None ==> final(self).kind() != TokenType::Else) && (else_token is Some <==> otherwise is Some) && (else_token matches Some(e) ==> e.ttype == TokenType::Else)),
        decreases rest(old(self).t(), old(self).pos()), 7nat,
    {
        let ghost t = self.t();
        let ghost n = t.len() as int;
        let ghost start = self.pos();
        let if_token = self.current_token();
        if let Err(error) = self.consume_next(TokenType::LeftParen, Error::ExpectedOpeningBracket) {
            return Err(error);
        }
        let condition = match self.expression() {
            Ok(value) => value,
            Err(error) => return Err(error),
        };
        let ghost condition_end = self.pos();
        if let Err(error) = self.consume_next(TokenType::RightParen, Error::ExpectedClosingBracket) {
            return Err(error);
        }
        let ghost closing = next_from(t, condition_end);
        self.matches(TokenType::EndOfLine);
        let body = match self.statement() {
            Ok(value) => value,
            Err(error) => return Err(error),
        };
        proof {
            lemma_back_at_least(t, start, closing, self.pos());
        }
        while self.matches(TokenType::EndOfLine)
            invariant
                self.inv(),
                self.t() == t,
                t == old(self).t(),
                start == old(self).pos(),
                n == t.len(),
                start < closing < self.pos(),
                settled(t, closing),
                self.pos() <= 2 * n + 4 - start,
            decreases rest(t, self.pos()),
        {
        }
        let (else_token, otherwise) = if self.current_kind() == TokenType::Else {
            let else_token = self.advance();
            while self.matches(TokenType::EndOfLine)
                invariant
                    self.inv(),
                    self.t() == t,
                    t == old(self).t(),
                    start == old(self).pos(),
                    n == t.len(),
                    start < closing < self.pos() <= n,
                    settled(t, closing),
                decreases rest(t, self.pos()),
            {
            }
            let otherwise = match self.statement() {
                Ok(value) => value,
                Err(error) => return Err(error),
            };
            (Some(else_token), Some(Box::new(otherwise)))
        } else {
            (None, None)
        };
        proof {
            lemma_back_at_least(t, start, closing, self.pos());
        }
        Ok(Stmt::If { if_token, else_token, condition, then: Box::new(body), otherwise })
    }

    fn while_statement(&mut self) -> (r: StatementResult<'source>)
        requires
            old(self).inv(),
            old(self).pos() < old(self).t().len(),
        ensures
            final(self).statement_after(*old(self), r),
        decreases rest(old(self).t(), old(self).pos()), 7nat,
    {
        let ghost t = self.t();
        let ghost start = self.pos();
        let token = self.current_token();
        if let Err(error) = self.consume_next(TokenType::LeftParen, Error::ExpectedOpeningBracket) {
            return Err(error);
        }
        let condition = match self.expression() {
            Ok(value) => value,
            Err(error) => return Err(error),
        };
        let ghost condition_end = self.pos();
        if let Err(error) = self.consume_next(TokenType::RightParen, Error::ExpectedClosingBracket) {
            return Err(error);
        }
        let ghost closing = next_from(t, condition_end);
        self.matches(TokenType::EndOfLine);
        let body = match self.statement() {
            Ok(value) => value,
            Err(error) => return Err(error),
        };
        proof {
            lemma_back_at_least(t, start, closing, self.pos());
        }
        Ok(Stmt::While { token, condition, body: Box::new(body) })
    }

    fn comment_statement(&mut self) -> (r: StatementResult<'source>)
        requires
            old(self).inv(),
            old(self).pos() < old(self).t().len(),
            old(self).kind() == TokenType::Comment,
        ensures
            final(self).statement_after(*old(self), r),
    {
        let ghost t = self.t();
        let ghost start = self.pos();
        let token = self.advance();
        if let Err(error) = self.expect_newline() {
            return Err(error);
        }
        proof {
            lemma_back_at_least(t, start, start, self.pos());
        }
        Ok(Stmt::Comment { token })
    }

    fn expression_statement(&mut self) -> (r: StatementResult<'source>)
        requires
            old(self).inv(),
            old(self).pos() <= old(self).t().len(),
        ensures
            final(self).statement_after(*old(self), r),
            value_kind(old(self).t(), old(self).pos()) && next_from(old(self).t(), old(self).pos()) >= old(self).t().len() ==> r is Ok && final(self).pos() >= old(self).t().len(),
            value_kind(old(self).t(), old(self).pos()) && next_from(old(self).t(), old(self).pos()) >= old(self).t().len() ==> (r matches Ok(st) && (st matches Stmt::Expression { expression } && literal_token_of(old(self).t(), old(self).pos() as int, expression))),
            kind_at(old(self).t(), old(self).pos()) == TokenType::Unknown ==> (r matches Err(e) && e == Error::UnexpectedCharacter) && final(self).pos() == old(self).pos(),
        decreases rest(old(self).t(), old(self).pos()), 7nat,
    {
        let ghost t = self.t();
        let ghost start = self.pos();
        let expression = match self.expression() {
            Ok(value) => value,
            Err(error) => return Err(error),
        };
        if let Err(error) = self.expect_newline() {
            return Err(error);
        }
        Ok(Stmt::Expression { expression })
    }
}

impl<'source> Parser<'source> {
    fn new(tokens: &'source [Token<'source>]) -> (r: Self)
        ensures
            r.tokens@ == tokens@,
            r.position == 0,
    {
        Parser { tokens, position: 0 }
    }
}

/// Parses the tokens into statements, or gives the diagnostic of the first
/// error, on the line of the token where the parser stopped.
pub fn parse<'s>(tokens: &'s [Token<'s>]) -> (r: Result<Vec<Stmt<'s>>, Diagnostic>)
    requires
        parsable(tokens@),
    ensures
        r matches Ok(statements) ==> stmts_in(statements@, tokens@),
        tokens@.len() == 1 && value_kind(tokens@, 0) ==> (r matches Ok(statements)
            && statements@.len() == 1 && (statements@[0] matches Stmt::Expression { expression }
            && literal_token_of(tokens@, 0, expression))),
        tokens@.len() > 0 && tokens@[0].ttype == TokenType::Unknown ==> (r matches Err(d) && d.title@
            == "Unexpected Character"@ && d.message@ == "Unknown character '"@ + tokens@[0].value@
            + "'"@ && d.lines@ == seq![tokens@[0].line]),
        r matches Err(d) ==> parse_error_title(d.title@) && d.lines@.len() == 1 && (d.lines@[0]
            == 0 || exists|i: int| 0 <= i < tokens@.len() && d.lines@[0] == tokens@[i].line),
{
    let mut parser = Parser::new(tokens);
    let mut statements: Vec<Stmt<'s>> = Vec::new();
    let ghost lone = tokens@.len() == 1 && value_kind(tokens@, 0);
    while !parser.at_end()
        invariant
            parser.inv(),
            parser.t() == tokens@,
            stmts_in(statements@, tokens@),
            lone == (tokens@.len() == 1 && value_kind(tokens@, 0)),
            tokens@.len() > 0 && tokens@[0].ttype == TokenType::Unknown ==> statements@.len() == 0 && parser.pos() == 0,
            lone ==> (statements@.len() == 0 && parser.pos() == 0) || (statements@.len() == 1
                && parser.pos() >= tokens@.len() && (statements@[0] matches Stmt::Expression {
                expression } && literal_token_of(tokens@, 0, expression))),
        decreases rest(tokens@, parser.pos()),
    {
        match parser.statement() {
            Ok(statement) => {
                proof {
                    lemma_stmts_push(statements@, statement, tokens@);
                }
                statements.push(statement);
            },
            Err(Error::EmptyStatement) => {},
            Err(error) => {
                let (value, line) = match parser.get(parser.position) {
                    Some(token) => {
                        assert(tokens@[parser.pos()].line == token.line);
                        (token.value, token.line)
                    },
                    None => ("", 0),
                };
                let mut lines = Vec::new();
                lines.push(line);
                return Err(
                    Diagnostic {
                        title: String::from_str(error.get_title()),
                        message: error.get_message(value),
                        lines,
                    },
                );
            },
        }
    }
    Ok(statements)
}

/// Whether `parse` can run over the tokens (see `parsable`).
pub fn is_parsable(tokens: &[Token]) -> (r: bool)
    ensures
        r == parsable(tokens@),
{
    if tokens.len() >= 0x7fff_ffff || tokens.len() > (usize::MAX - 5) / 2 {
        return false;
    }
    let mut i: usize = 0;
    while i < tokens.len()
        invariant
            i <= tokens@.len(),
            tokens@.len() < i32::MAX,
            2 * tokens@.len() + 5 <= usize::MAX,
            forall|k: int| 0 <= k < i ==> (#[trigger] tokens@[k]).ttype != TokenType::EndOfFile,
            forall|k: int| 0 <= k < i ==> bytes_of((#[trigger] tokens@[k]).value).len() <= 0x3fff_ffff,
            forall|k: int|
                0 <= k < i && (#[trigger] tokens@[k]).ttype == TokenType::String
                    ==> string_token_ok(tokens@[k].value),
        decreases tokens@.len() - i,
    {
        let token = &tokens[i];
        let bytes = token.value.as_bytes();
        let length = bytes.len();
        if token.ttype == TokenType::EndOfFile || length > 0x3fff_ffff {
            return false;
        }
        if token.ttype == TokenType::String {
            if length < 2 || bytes[0] >= 128 || (0x80 <= bytes[length - 1] && bytes[length - 1]
                <= 0xbf) {
                return false;
            }
        }
        i = i + 1;
    }
    true
}

} // verus!

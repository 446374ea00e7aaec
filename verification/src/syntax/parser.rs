//! A Pratt parser from source text to the spanned syntax tree. It pulls
//! tokens from the tokeniser on demand and stops at the first error.
use crate::syntax::ast::{
    expr_between, expr_plain, expr_spans, exprs_between, exprs_plain, entries_plain, stmt_plain, stmts_plain, entries_between, lemma_entries_between_push,
    lemma_entries_between_widen, lemma_exprs_between_push, lemma_exprs_between_widen,
    lemma_stmts_between_push, lemma_stmts_between_widen, lemma_stmts_between_index, lemma_stmts_between_all, span_between, stmt_between, stmt_spans,
    stmts_between, stmts_in_order, join, lines_fit, line_at, AssignmentOperator, BinaryOperator, DeclarationIdentifier, Expr,
    Expression, ImportItem, LiteralType, Parameter, Span, Statement, Stmt, Type, TypeExpression,
    UnaryOperator,
};
use crate::syntax::tokens::{
    count_newlines, is_lexable, lemma_count_newlines, lemma_count_newlines_split,
    lemma_count_newlines_step, lemma_lex_next_shape, lex_next, source_lexable, LexState, initial_state, token_shape,
    LineNumber, Token, TokenType, Tokeniser,
};
use crate::text::{bytes_of, lemma_ascii_next_boundary, on_boundary, slice_str};
use vstd::prelude::*;
use vstd::string::StringExecFns;

verus! {

broadcast use vstd::utf8::encode_utf8_valid_utf8;

/// Binding power of the operators, weakest first.
#[derive(Clone, Copy, Debug, PartialEq, Eq, Structural)]
pub enum Precedence {
    Lowest,
    Assignment,  // =
    Pipeline,  // >>
    Or,  // or
    And,  // and
    Nullish,  // ??
    Equality,  // == !=
    Comparison,  // < > <= >=
    Term,  // + -
    Factor,  // * /
    Unary,  // ! -
    Call,  // () []
    Primary,
    Comment,
}

impl Precedence {
    pub open spec fn spec_level(self) -> int {
        match self {
            Precedence::Lowest => 1,
            Precedence::Assignment => 2,
            Precedence::Pipeline => 3,
            Precedence::Or => 4,
            Precedence::And => 5,
            Precedence::Nullish => 6,
            Precedence::Equality => 7,
            Precedence::Comparison => 8,
            Precedence::Term => 9,
            Precedence::Factor => 10,
            Precedence::Unary => 11,
            Precedence::Call => 12,
            Precedence::Primary => 13,
            Precedence::Comment => 14,
        }
    }

    fn level(self) -> (r: u8)
        ensures
            r == self.spec_level(),
    {
        match self {
            Precedence::Lowest => 1,
            Precedence::Assignment => 2,
            Precedence::Pipeline => 3,
            Precedence::Or => 4,
            Precedence::And => 5,
            Precedence::Nullish => 6,
            Precedence::Equality => 7,
            Precedence::Comparison => 8,
            Precedence::Term => 9,
            Precedence::Factor => 10,
            Precedence::Unary => 11,
            Precedence::Call => 12,
            Precedence::Primary => 13,
            Precedence::Comment => 14,
        }
    }

    /// The next stronger precedence.
    fn next(self) -> (r: Precedence)
        ensures
            self.spec_level() < 12 ==> r.spec_level() == self.spec_level() + 1,
            self.spec_level() >= 12 ==> r == Precedence::Primary,
    {
        match self {
            Self::Lowest => Self::Assignment,
            Self::Assignment => Self::Pipeline,
            Self::Pipeline => Self::Or,
            Self::Or => Self::And,
            Self::And => Self::Nullish,
            Self::Nullish => Self::Equality,
            Self::Equality => Self::Comparison,
            Self::Comparison => Self::Term,
            Self::Term => Self::Factor,
            Self::Factor => Self::Unary,
            Self::Unary => Self::Call,
            Self::Call | Self::Primary | Self::Comment => Self::Primary,
        }
    }

    pub open spec fn spec_from(token_type: TokenType) -> Precedence {
        match token_type {
            TokenType::And => Precedence::And,
            TokenType::Or => Precedence::Or,
            TokenType::QuestionQuestion => Precedence::Nullish,
            TokenType::LeftParen | TokenType::LeftSquare => Precedence::Call,
            TokenType::Plus | TokenType::Minus => Precedence::Term,
            TokenType::Star | TokenType::Slash => Precedence::Factor,
            TokenType::BangEqual | TokenType::EqualEqual => Precedence::Equality,
            TokenType::Greater | TokenType::GreaterEqual | TokenType::Less
            | TokenType::LessEqual => Precedence::Comparison,
            TokenType::Comment => Precedence::Comment,
            TokenType::RightRight => Precedence::Pipeline,
            _ => Precedence::Lowest,
        }
    }

    /// The precedence of a token as an infix operator.
    fn from(token_type: TokenType) -> (r: Precedence)
        ensures
            r == Precedence::spec_from(token_type),
    {
        match token_type {
            TokenType::And => Self::And,
            TokenType::Or => Self::Or,
            TokenType::QuestionQuestion => Self::Nullish,
            TokenType::LeftParen | TokenType::LeftSquare => Self::Call,
            TokenType::Plus | TokenType::Minus => Self::Term,
            TokenType::Star | TokenType::Slash => Self::Factor,
            TokenType::BangEqual | TokenType::EqualEqual => Self::Equality,
            TokenType::Greater | TokenType::GreaterEqual | TokenType::Less
            | TokenType::LessEqual => Self::Comparison,
            TokenType::Comment => Self::Comment,
            TokenType::RightRight => Self::Pipeline,
            _ => Self::Lowest,
        }
    }
}

#[derive(PartialEq, Eq, Structural)]
enum Error {
    ExpectedOpeningBracket,
    ExpectedClosingBracket,
    ExpectedOpeningBrace,
    ExpectedClosingBrace,
    ExpectedClosingSquare,
    ExpectedClosingAngle,
    ExpectedExpression,
    ExpectedFunctionArrow,
    ExpectedNewLine,
    ExpectedIdentifier,
    InvalidAssignmentTarget,
    UnexpectedCharacter,
    UnterminatedString,
    EmptyStatement,
    ExpectedImportKeyword,
    ExpectedType,
    ExpectedModuleItem,
    ExpectedColon,
}

/// An error found in the source: what it is, the span of the token where it
/// was found, and that token's line.
#[derive(Debug, PartialEq, Eq)]
pub struct Diagnostic {
    pub title: String,
    pub message: String,
    pub span: Span,
    pub line: LineNumber,
}

/// The titles of the parser's errors.
pub open spec fn syntax_error_title(title: Seq<char>) -> bool {
    ||| title == "Expected '('"@
    ||| title == "Expected ')'"@
    ||| title == "Expected '{'"@
    ||| title == "Expected '}'"@
    ||| title == "Expected ']'"@
    ||| title == "Expected '>'"@
    ||| title == "Expected ':'"@
    ||| title == "Expected Expression"@
    ||| title == "Expected Function Arrow (-> / =>)"@
    ||| title == "Expected New Line"@
    ||| title == "Expected Identifier"@
    ||| title == "Invalid Assignment Target"@
    ||| title == "Unexpected Character"@
    ||| title == "Unterminated String"@
    ||| title == "Expected 'import' keyword"@
    ||| title == "Expected Type"@
    ||| title == "Expected Module Item to Import"@
}

/// The message of an error found at `t`, a token of the source `b`.
spec fn error_message(e: Error, b: Seq<u8>, t: Token) -> Seq<char> {
    let text = vstd::utf8::decode_utf8(b.subrange(t.start as int, t.end as int));
    match e {
        Error::UnexpectedCharacter => "Unknown character '"@ + text + "'"@,
        Error::UnterminatedString => if t.start < t.end {
            "Missing closing quote "@ + vstd::utf8::decode_utf8(
                b.subrange(t.start as int, t.start + 1),
            )
        } else {
            "Missing closing quote "@
        },
        Error::InvalidAssignmentTarget => "Can't assign to an expression, only a variable"@,
        _ => "but recieved '"@ + text + "'"@,
    }
}

impl Error {
    fn get_title(&self) -> (r: &'static str)
        requires
            *self != Error::EmptyStatement,
        ensures
            syntax_error_title(r@),
            *self == Error::UnexpectedCharacter ==> r@ == "Unexpected Character"@,
    {
        proof {
            reveal_strlit("Unexpected Character");
        }
        match self {
            Self::ExpectedOpeningBracket => "Expected '('",
            Self::ExpectedClosingBracket => "Expected ')'",
            Self::ExpectedOpeningBrace => "Expected '{'",
            Self::ExpectedClosingBrace => "Expected '}'",
            Self::ExpectedClosingSquare => "Expected ']'",
            Self::ExpectedClosingAngle => "Expected '>'",
            Self::ExpectedColon => "Expected ':'",
            Self::ExpectedExpression => "Expected Expression",
            Self::ExpectedFunctionArrow => "Expected Function Arrow (-> / =>)",
            Self::ExpectedNewLine => "Expected New Line",
            Self::ExpectedIdentifier => "Expected Identifier",
            Self::InvalidAssignmentTarget => "Invalid Assignment Target",
            Self::UnexpectedCharacter => "Unexpected Character",
            Self::UnterminatedString => "Unterminated String",
            Self::ExpectedImportKeyword => "Expected 'import' keyword",
            Self::ExpectedType => "Expected Type",
            Self::ExpectedModuleItem => "Expected Module Item to Import",
            _ => "Expected Module Item to Import",
        }
    }

    fn get_message(&self, source: &str, token: Token) -> (r: String)
        requires
            *self != Error::EmptyStatement,
            token.within(bytes_of(source)),
            token.start < token.end ==> bytes_of(source)[token.start as int] < 128,
        ensures
            r@ == error_message(*self, bytes_of(source), token),
    {
        let value = token.get_value(source);
        proof {
            vstd::utf8::encode_utf8_decode_utf8(value@);
        }
        match self {
            Self::UnexpectedCharacter => {
                let mut message = String::from_str("Unknown character '");
                message.append(value);
                message.append("'");
                message
            },
            Self::UnterminatedString => {
                let mut message = String::from_str("Missing closing quote ");
                if token.start < token.end {
                    proof {
                        lemma_ascii_next_boundary(source, token.start as int);
                    }
                    let first = slice_str(source, token.start as usize, token.start as usize + 1);
                    proof {
                        vstd::utf8::encode_utf8_decode_utf8(first@);
                    }
                    message.append(first);
                }
                message
            },
            Self::InvalidAssignmentTarget => String::from_str(
                "Can't assign to an expression, only a variable",
            ),
            _ => {
                let mut message = String::from_str("but recieved '");
                message.append(value);
                message.append("'");
                message
            },
        }
    }

    fn get_diagnostic(&self, source: &str, token: Token) -> (r: Diagnostic)
        requires
            *self != Error::EmptyStatement,
            token.within(bytes_of(source)),
            token.start < token.end ==> bytes_of(source)[token.start as int] < 128,
            lines_fit(bytes_of(source)),
        ensures
            r.span == Span::spec_from(token),
            r.line == line_at(bytes_of(source), token.start as int),
            syntax_error_title(r.title@),
            r.message@ == error_message(*self, bytes_of(source), token),
            *self == Error::UnexpectedCharacter ==> r.title@ == "Unexpected Character"@,
    {
        let span = Span::from(token);
        Diagnostic {
            title: String::from_str(self.get_title()),
            message: self.get_message(source, token),
            line: span.get_line_number(source),
            span,
        }
    }
}

/// A token that the parser holds: the end of the source, or a token from
/// the tokeniser.
spec fn token_ok(b: Seq<u8>, t: Token) -> bool {
    &&& t.within(b)
    &&& (t.ttype == TokenType::EndOfFile ==> t.start == 0 && t.end == 0)
    &&& (t.ttype != TokenType::EndOfFile ==> token_shape(b, t))
}

/// The kind of the next token the tokeniser hands out from `st`.
pub open spec fn next_type(b: Seq<u8>, st: LexState) -> TokenType {
    match lex_next(b, st).0 {
        Some(t) => t.ttype,
        None => TokenType::EndOfFile,
    }
}

/// The next token the tokeniser hands out from `st`, or the end of the
/// source.
pub open spec fn next_token(b: Seq<u8>, st: LexState) -> Token {
    match lex_next(b, st).0 {
        Some(t) => t,
        None => Token::spec_eof(),
    }
}

/// Where the tokeniser stands after handing out its next token from `st`.
pub open spec fn after(b: Seq<u8>, st: LexState) -> LexState {
    lex_next(b, st).1
}

/// A value token that `literal` takes: a number, `true`, `false`, `null`,
/// or a string that ends with its opening quote.
pub open spec fn literal_ok(b: Seq<u8>, t: Token) -> bool {
    ||| t.ttype == TokenType::Number
    ||| t.ttype == TokenType::True
    ||| t.ttype == TokenType::False
    ||| t.ttype == TokenType::Null
    ||| (t.ttype == TokenType::String && string_closed(b, t))
}

/// A token that ends an expression: it continues none as an operator and
/// assigns nothing.
spec fn ends_expression(t: TokenType) -> bool {
    Precedence::spec_from(t).spec_level() < 2 && t != TokenType::Equal
}

/// The next token the tokeniser hands out from `st` ends a line or the
/// source.
spec fn line_ends(b: Seq<u8>, st: LexState) -> bool {
    next_type(b, st) == TokenType::EndOfLine || next_type(b, st) == TokenType::EndOfFile
}

/// A string token ends with the quote it starts with.
pub open spec fn string_closed(b: Seq<u8>, t: Token) -> bool {
    t.end - t.start > 1 && b[t.start as int] == b[t.end - 1]
}

/// The bytes of a literal's value: a string's text between its quotes, or
/// the whole token.
pub open spec fn literal_bytes(b: Seq<u8>, t: Token) -> Seq<u8> {
    if t.ttype == TokenType::String {
        b.subrange(t.start + 1, t.end - 1)
    } else {
        b.subrange(t.start as int, t.end as int)
    }
}

/// `e` reads or assigns an item of `collection`.
pub open spec fn indexes(e: Expression, collection: Expression) -> bool {
    match e.expr {
        Expr::Index { expression, .. } => *expression == collection,
        Expr::IndexAssignment { expression, .. } => *expression == collection,
        _ => false,
    }
}

/// `e` is the literal that token `t` of `b` reads as: its value is the
/// token's text (a string's without its quotes), its span the token's.
pub open spec fn literal_of(b: Seq<u8>, t: Token, e: Expression) -> bool {
    &&& e.span == Span::spec_from(t)
    &&& e.expr matches Expr::Literal { value, type_ } && type_ == LiteralType::spec_from(t.ttype)
        && bytes_of(value) == literal_bytes(b, t)
}

/// `e` is the variable that identifier token `t` of `b` names.
pub open spec fn variable_of(b: Seq<u8>, t: Token, e: Expression) -> bool {
    &&& e.span == Span::spec_from(t)
    &&& e.expr matches Expr::Variable { name } && bytes_of(name) == b.subrange(
        t.start as int,
        t.end as int,
    )
}

/// A source of one identifier and nothing after it: `parse` reads it as
/// one statement of that variable.
pub open spec fn lone_variable_source(b: Seq<u8>) -> bool {
    &&& next_token(b, initial_state()).ttype == TokenType::Identifier
    &&& next_type(b, after(b, initial_state())) == TokenType::EndOfFile
}

/// A value token or an identifier: what reads on its own as a literal or a
/// variable.
pub open spec fn operand_token(b: Seq<u8>, t: Token) -> bool {
    literal_ok(b, t) || t.ttype == TokenType::Identifier
}

/// `e` is what operand token `t` reads as: its variable for an
/// identifier, its literal otherwise.
pub open spec fn operand_of(b: Seq<u8>, t: Token, e: Expression) -> bool {
    if t.ttype == TokenType::Identifier {
        variable_of(b, t, e)
    } else {
        literal_of(b, t, e)
    }
}

/// An operand token followed by a token of kind `following` that ends it:
/// one that ends an expression after a value, the end of a line or of the
/// source after an identifier.
spec fn operand_ends(b: Seq<u8>, t: Token, following: TokenType) -> bool {
    ||| literal_ok(b, t) && ends_expression(following)
    ||| t.ttype == TokenType::Identifier && (following == TokenType::EndOfLine || following
        == TokenType::EndOfFile)
}

/// `e` is the binary expression of operator token `t1` between the
/// operands of tokens `t0` and `t2`.
pub open spec fn operand_pair_of(b: Seq<u8>, t0: Token, t1: Token, t2: Token, e: Expression) -> bool {
    e.expr matches Expr::Binary { operator, left, right } && operator == BinaryOperator::spec_from(
        t1.ttype,
    ) && operand_of(b, t0, *left) && operand_of(b, t2, *right)
}

/// After operand token `t0`, the tokens from `st` are a binary operator and
/// an operand token, and the one after them ends the expression.
spec fn operand_pair(b: Seq<u8>, t0: Token, st: LexState) -> bool {
    &&& operand_token(b, t0)
    &&& crate::syntax::ast::is_binary_operator_token(next_type(b, st))
    &&& operand_ends(b, next_token(b, after(b, st)), next_type(b, after(b, after(b, st))))
}

/// A source of two operands (values or names) joined by a binary
/// operator, and nothing after them: `parse` reads it as one statement of
/// that binary expression.
pub open spec fn operand_pair_source(b: Seq<u8>) -> bool {
    let st = after(b, initial_state());
    &&& operand_token(b, next_token(b, initial_state()))
    &&& crate::syntax::ast::is_binary_operator_token(next_type(b, st))
    &&& operand_token(b, next_token(b, after(b, st)))
    &&& next_type(b, after(b, after(b, st))) == TokenType::EndOfFile
}

/// The tokens from `v0` on (the tokeniser at `vst` after it) are one
/// operand, or two joined by a binary operator, and then the end of the
/// source.
pub open spec fn value_source(b: Seq<u8>, v0: Token, vst: LexState) -> bool {
    ||| operand_token(b, v0) && next_type(b, vst) == TokenType::EndOfFile
    ||| operand_token(b, v0) && crate::syntax::ast::is_binary_operator_token(next_type(b, vst))
        && operand_token(b, next_token(b, after(b, vst))) && next_type(
        b,
        after(b, after(b, vst)),
    ) == TokenType::EndOfFile
}

/// `e` is what the tokens of a `value_source` read as.
pub open spec fn value_of(b: Seq<u8>, v0: Token, vst: LexState, e: Expression) -> bool {
    if next_type(b, vst) == TokenType::EndOfFile {
        operand_of(b, v0, e)
    } else {
        operand_pair_of(b, v0, next_token(b, vst), next_token(b, after(b, vst)), e)
    }
}

/// An import item with an alias, and the closing brace: `sqrt as root }`,
/// from name token `t0` (the tokeniser at `st`).
pub open spec fn aliased_item(b: Seq<u8>, t0: Token, st: LexState) -> bool {
    &&& t0.ttype == TokenType::Identifier
    &&& next_type(b, st) == TokenType::As
    &&& next_type(b, after(b, st)) == TokenType::Identifier
    &&& next_type(b, after(b, after(b, st))) == TokenType::RightBrace
}

/// `items` is the one aliased item that an `aliased_item` reads as.
pub open spec fn aliased_item_of(b: Seq<u8>, t0: Token, st: LexState, items: Seq<ImportItem>) -> bool {
    let alias = next_token(b, after(b, st));
    &&& items.len() == 1
    &&& bytes_of(items[0].name) == b.subrange(t0.start as int, t0.end as int)
    &&& items[0].alias matches Some(a) && bytes_of(a) == b.subrange(
        alias.start as int,
        alias.end as int,
    )
}

/// After `from` (the tokeniser at `st`): a module name, `import`, `{`, one
/// aliased item, `}` and the end of the source.
pub open spec fn aliased_import(b: Seq<u8>, st: LexState) -> bool {
    &&& next_type(b, st) == TokenType::Identifier
    &&& next_type(b, after(b, st)) == TokenType::Import
    &&& next_type(b, after(b, after(b, st))) == TokenType::LeftBrace
    &&& aliased_item(b, next_token(b, after(b, after(b, after(b, st)))), after(b, after(b, after(b, after(b, st)))))
    &&& next_type(b, after(b, after(b, after(b, after(b, after(b, after(b, after(b, st)))))))) == TokenType::EndOfFile
}

/// `s` is the import that the tokens of an `aliased_import` read as.
pub open spec fn aliased_import_of(b: Seq<u8>, st: LexState, s: Statement) -> bool {
    let module = next_token(b, st);
    s.stmt matches Stmt::Import { module: m, items } && bytes_of(m) == b.subrange(
        module.start as int,
        module.end as int,
    ) && aliased_item_of(b, next_token(b, after(b, after(b, after(b, st)))), after(b, after(b, after(b, after(b, st)))), items@)
}

/// After `(` (the tokeniser at `st`): a name, `)`, and then no arrow.
pub open spec fn bracketed_name(b: Seq<u8>, st: LexState) -> bool {
    &&& next_type(b, st) == TokenType::Identifier
    &&& next_type(b, after(b, st)) == TokenType::RightParen
    &&& next_type(b, after(b, after(b, st))) != TokenType::RightArrow
    &&& next_type(b, after(b, after(b, st))) != TokenType::FatRightArrow
}

/// `e` is the name after `(` (the tokeniser at `st`) in brackets.
pub open spec fn bracketed_name_of(b: Seq<u8>, st: LexState, e: Expression) -> bool {
    e.expr matches Expr::Group { expression } && variable_of(b, next_token(b, st), *expression)
}

/// After `(` (the tokeniser at `st`): the end of the source, a name and
/// the end, or `)` and the end. No expression can be read there.
pub open spec fn unclosed_bracket(b: Seq<u8>, st: LexState) -> bool {
    ||| next_type(b, st) == TokenType::EndOfFile
    ||| next_type(b, st) == TokenType::Identifier && next_type(b, after(b, st))
        == TokenType::EndOfFile
    ||| next_type(b, st) == TokenType::RightParen && next_type(b, after(b, st))
        == TokenType::EndOfFile
}

/// Identifier `t0`, then (the tokeniser at `st`) `=` and a value source:
/// `x = x + 1`.
pub open spec fn assignment_source(b: Seq<u8>, t0: Token, st: LexState) -> bool {
    &&& t0.ttype == TokenType::Identifier
    &&& next_type(b, st) == TokenType::Equal
    &&& value_source(b, next_token(b, after(b, st)), after(b, after(b, st)))
}

/// `e` is the assignment that the tokens of an `assignment_source` read as.
pub open spec fn assignment_of(b: Seq<u8>, t0: Token, st: LexState, e: Expression) -> bool {
    e.expr matches Expr::Assignment { identifier, expression } && bytes_of(identifier)
        == b.subrange(t0.start as int, t0.end as int) && value_of(
        b,
        next_token(b, after(b, st)),
        after(b, after(b, st)),
        *expression,
    )
}

/// After `let` (the tokeniser at `st`), a name, an optional annotation of
/// one type name, `=` and a value source: `let a = 1`, `let a: number = b`.
#[verifier::opaque]
pub open spec fn simple_declaration(b: Seq<u8>, st: LexState) -> bool {
    let s1 = after(b, st);
    let s2 = after(b, s1);
    let s4 = after(b, after(b, s2));
    &&& next_type(b, st) == TokenType::Identifier
    &&& {
        ||| next_type(b, s1) == TokenType::Equal && value_source(b, next_token(b, s2), after(b, s2))
        ||| next_type(b, s1) == TokenType::Colon && type_name_ok(
            next_type(b, s2),
            next_type(b, after(b, s2)),
        ) && next_type(b, after(b, s2)) == TokenType::Equal && value_source(
            b,
            next_token(b, s4),
            after(b, s4),
        )
    }
}

/// `s` is the declaration that the tokens of a `simple_declaration` read
/// as: one variable, its annotation as a named type, and its value.
#[verifier::opaque]
pub open spec fn simple_declaration_of(b: Seq<u8>, st: LexState, s: Statement) -> bool {
    let s1 = after(b, st);
    let s2 = after(b, s1);
    let s4 = after(b, after(b, s2));
    let name = next_token(b, st);
    &&& s.stmt matches Stmt::Declaration { identifier, type_, expression }
    &&& s.stmt->Declaration_identifier is Variable
    &&& bytes_of(s.stmt->Declaration_identifier->Variable_0) == b.subrange(name.start as int, name.end as int)
    &&& s.stmt->Declaration_expression is Some
    &&& if next_type(b, s1) == TokenType::Equal {
        &&& s.stmt->Declaration_type_ is None
        &&& value_of(b, next_token(b, s2), after(b, s2), s.stmt->Declaration_expression.unwrap())
    } else {
        &&& s.stmt->Declaration_type_ is Some
        &&& s.stmt->Declaration_type_.unwrap().type_ matches Type::Named(n)
        &&& bytes_of(s.stmt->Declaration_type_.unwrap().type_->Named_0) == b.subrange(
            next_token(b, s2).start as int,
            next_token(b, s2).end as int,
        )
        &&& value_of(b, next_token(b, s4), after(b, s4), s.stmt->Declaration_expression.unwrap())
    }
}

/// What reading a statement that starts at `let` (the tokeniser at `st`)
/// gives when it is a simple declaration, ending at token `cur`.
#[verifier::opaque]
spec fn keyword_read(b: Seq<u8>, t0: Token, st: LexState, r: Result<Statement, Error>, cur: Token) -> bool {
    &&& t0.ttype == TokenType::Let && simple_declaration(b, st) ==> (r matches Ok(s)
        && simple_declaration_of(b, st, s)) && cur.ttype == TokenType::EndOfFile
    &&& t0.ttype == TokenType::From && aliased_import(b, st) ==> (r matches Ok(s)
        && aliased_import_of(b, st, s)) && cur.ttype == TokenType::EndOfFile
}

/// What an expression read from a value source gives.
proof fn lemma_value_read(
    b: Seq<u8>,
    v0: Token,
    vst: LexState,
    r: Result<Expression, Error>,
    cur: Token,
    fin: LexState,
)
    requires
        expr_read(b, v0, vst, 2, r, cur, fin),
        literal_ok(b, v0) && ends_expression(next_type(b, vst)) ==> cur == next_token(b, vst),
    ensures
        value_source(b, v0, vst) ==> (r matches Ok(e) && value_of(b, v0, vst, e)) && cur.ttype
            == TokenType::EndOfFile,
{
    reveal(expr_read);
}

/// What reading an expression that starts at value token `t0` (with the
/// tokeniser at `st`), at a precedence of `level`, gives: the literal of a
/// lone value token, or the binary expression of two of them, ending at
/// token `cur` with the tokeniser at `fin`.
#[verifier::opaque]
spec fn expr_read(
    b: Seq<u8>,
    t0: Token,
    st: LexState,
    level: int,
    r: Result<Expression, Error>,
    cur: Token,
    fin: LexState,
) -> bool {
    &&& literal_ok(b, t0) && ends_expression(next_type(b, st)) ==> (r matches Ok(e) && literal_of(
        b,
        t0,
        e,
    ))
    &&& operand_pair(b, t0, st) && level <= Precedence::spec_from(next_type(b, st)).spec_level() ==> (
    r matches Ok(e) && operand_pair_of(b, t0, next_token(b, st), next_token(b, after(b, st)), e))
        && cur == next_token(b, after(b, after(b, st))) && fin == after(b, after(b, after(b, st)))
    &&& t0.ttype == TokenType::Identifier && line_ends(b, st) ==> (r matches Ok(e) && variable_of(
        b,
        t0,
        e,
    )) && cur == next_token(b, st) && fin == after(b, st)
    &&& level <= 2 && assignment_source(b, t0, st) ==> (r matches Ok(e) && assignment_of(b, t0, st, e))
        && cur.ttype == TokenType::EndOfFile
    &&& t0.ttype == TokenType::LeftParen && unclosed_bracket(b, st) ==> (r matches Err(e) && e
        != Error::EmptyStatement)
    &&& t0.ttype == TokenType::LeftParen && bracketed_name(b, st) && ends_expression(
        next_type(b, after(b, after(b, st))),
    ) ==> (r matches Ok(e) && bracketed_name_of(b, st, e)) && cur == next_token(
        b,
        after(b, after(b, st)),
    ) && fin == after(b, after(b, after(b, st)))
}

/// What reading a statement that starts at value token `t0` gives: an
/// expression statement of the lone literal, or of the binary expression
/// of two of them, ending at token `cur`.
#[verifier::opaque]
spec fn stmt_read(b: Seq<u8>, t0: Token, st: LexState, r: Result<Statement, Error>, cur: Token) -> bool {
    &&& literal_ok(b, t0) && line_ends(b, st) ==> (r matches Ok(s) && (s.stmt matches Stmt::Expression {
        expression,
    } && literal_of(b, t0, expression)))
    &&& operand_pair(b, t0, st) && line_ends(b, after(b, after(b, st))) ==> (r matches Ok(s) && (
    s.stmt matches Stmt::Expression { expression } && operand_pair_of(
        b,
        t0,
        next_token(b, st),
        next_token(b, after(b, st)),
        expression,
    )))
    &&& operand_pair(b, t0, st) && next_type(b, after(b, after(b, st))) == TokenType::EndOfFile
        ==> cur.ttype == TokenType::EndOfFile
    &&& t0.ttype == TokenType::Identifier && line_ends(b, st) ==> (r matches Ok(s) && (
    s.stmt matches Stmt::Expression { expression } && variable_of(b, t0, expression)))
    &&& t0.ttype == TokenType::Identifier && next_type(b, st) == TokenType::EndOfFile
        ==> cur.ttype == TokenType::EndOfFile
    &&& assignment_source(b, t0, st) ==> (r matches Ok(s) && (s.stmt matches Stmt::Expression {
        expression,
    } && assignment_of(b, t0, st, expression))) && cur.ttype == TokenType::EndOfFile
    &&& t0.ttype == TokenType::LeftParen && unclosed_bracket(b, st) ==> (r matches Err(e) && e
        != Error::EmptyStatement)
    &&& t0.ttype == TokenType::LeftParen && bracketed_name(b, st) && line_ends(
        b,
        after(b, after(b, st)),
    ) ==> (r matches Ok(s) && (s.stmt matches Stmt::Expression { expression }
        && bracketed_name_of(b, st, expression)))
    &&& t0.ttype == TokenType::LeftParen && bracketed_name(b, st) && next_type(
        b,
        after(b, after(b, st)),
    ) == TokenType::EndOfFile ==> cur.ttype == TokenType::EndOfFile
}

/// A source of one value token and nothing after it: `parse` reads it as
/// one statement.
pub open spec fn lone_literal_source(b: Seq<u8>) -> bool {
    &&& literal_ok(b, next_token(b, initial_state()))
    &&& next_type(b, after(b, initial_state())) == TokenType::EndOfFile
}

/// A token that names a type on its own (`number`, `null`, ...), followed
/// by one that neither applies, lists, joins nor makes it optional.
pub open spec fn type_name_ok(t: TokenType, following: TokenType) -> bool {
    &&& (t == TokenType::Identifier || t == TokenType::Null || t == TokenType::True || t
        == TokenType::False)
    &&& following != TokenType::LeftParen
    &&& following != TokenType::LeftSquare
    &&& following != TokenType::Pipe
    &&& following != TokenType::Question
}

/// A type name applied to one type name in brackets, `list(number)`, with
/// nothing after it that lists, joins or makes it optional: `t0` is the
/// first name and the tokens from `st` are the rest.
pub open spec fn applied_type(b: Seq<u8>, t0: Token, st: LexState) -> bool {
    let following = next_type(b, after(b, after(b, after(b, st))));
    &&& t0.ttype == TokenType::Identifier
    &&& next_type(b, st) == TokenType::LeftParen
    &&& type_name_ok(next_type(b, after(b, st)), next_type(b, after(b, after(b, st))))
    &&& next_type(b, after(b, after(b, st))) == TokenType::RightParen
    &&& following != TokenType::LeftSquare
    &&& following != TokenType::Pipe
    &&& following != TokenType::Question
}

/// `t` is type name token `name` applied to the one type named by token
/// `argument`.
pub open spec fn applied_type_of(b: Seq<u8>, name: Token, argument: Token, t: TypeExpression) -> bool {
    t.type_ matches Type::Parameter(n, params) && bytes_of(n) == b.subrange(
        name.start as int,
        name.end as int,
    ) && params@.len() == 1 && (params@[0].type_ matches Type::Named(m) && bytes_of(m)
        == b.subrange(argument.start as int, argument.end as int))
}

/// A source the parser can run over: the tokeniser can run to its end, its
/// lines fit a `LineNumber`, and indentation counts fit an `i32`.
pub open spec fn parsable(b: Seq<u8>) -> bool {
    &&& source_lexable(b)
    &&& lines_fit(b)
    &&& b.len() < 0x4000_0000
}

pub struct Parser<'source> {
    text: &'source str,
    source: &'source [u8],
    tokeniser: Tokeniser<'source>,
    current: Token,
    previous: Token,
}

impl<'source> Parser<'source> {
    spec fn b(&self) -> Seq<u8> {
        bytes_of(self.text)
    }

    spec fn inv(&self) -> bool {
        &&& self.inv_loose()
        &&& self.current.ttype != TokenType::Whitespace
    }

    /// The invariant, while the current token may still be whitespace.
    spec fn inv_loose(&self) -> bool {
        &&& self.tokeniser.wf()
        &&& self.tokeniser.text() == self.text
        &&& self.tokeniser.bytes() == self.b()
        &&& 0 <= self.tokeniser.state().position <= self.b().len()
        &&& self.source@ == self.b()
        &&& lines_fit(self.b())
        &&& self.b().len() < 0x4000_0000
        &&& on_boundary(self.b(), 0)
        &&& token_ok(self.b(), self.current)
        &&& token_ok(self.b(), self.previous)
        &&& (self.current.ttype != TokenType::EndOfFile ==> self.tokeniser.state().last
            == self.current.ttype)
        &&& (self.current.ttype == TokenType::EndOfFile ==> self.tokeniser.state().position
            == self.b().len())
        &&& (self.current.ttype != TokenType::EndOfFile ==> self.current.end
            <= self.tokeniser.state().position)
    }

    /// Where the current token starts (the end of the source once it is
    /// read): every node built so far ends here or before.
    spec fn floor(&self) -> int {
        if self.current.ttype == TokenType::EndOfFile {
            self.b().len() as int
        } else {
            self.current.start as int
        }
    }

    /// Decreases with every token that is read: twice the bytes left, plus
    /// one while the current token is not the end of the source.
    spec fn measure(&self) -> int {
        2 * (self.b().len() - self.tokeniser.state().position) + if self.current.ttype
            == TokenType::EndOfFile {
            0int
        } else {
            1int
        }
    }

    spec fn kept(&self, before: &Parser<'source>) -> bool {
        &&& self.inv()
        &&& self.text == before.text
        &&& self.measure() <= before.measure()
        &&& self.floor() >= before.floor()
    }

    spec fn advanced(&self, before: &Parser<'source>) -> bool {
        &&& self.kept(before)
        &&& self.measure() < before.measure()
    }

    fn new(source: &'source str) -> (r: Parser<'source>)
        requires
            parsable(bytes_of(source)),
        ensures
            r.inv(),
            r.text == source,
            r.current == next_token(bytes_of(source), initial_state()),
            r.tokeniser.state() == after(bytes_of(source), initial_state()),
            r.previous == Token::spec_eof(),
    {
        let mut tokeniser = Tokeniser::new(source);
        let ghost st = tokeniser.state();
        proof {
            tokeniser.lemma_wf();
        }
        let first = tokeniser.next();
        proof {
            lemma_lex_next_shape(bytes_of(source), st);
            tokeniser.lemma_wf();
            vstd::utf8::encode_utf8_valid_utf8(source@);
            if bytes_of(source).len() > 0 {
                vstd::utf8::is_char_boundary_start_end_of_seq(bytes_of(source));
                vstd::utf8::is_char_boundary_iff_not_is_continuation_byte(bytes_of(source), 0);
            }
        }
        let current = match first {
            Some(t) => t,
            None => Token::eof(),
        };
        Parser {
            text: source,
            source: source.as_bytes(),
            tokeniser,
            current,
            previous: Token::eof(),
        }
    }

    fn at_end(&self) -> (r: bool)
        ensures
            r == (self.current.ttype == TokenType::EndOfFile),
    {
        self.current.ttype == TokenType::EndOfFile
    }

    /// Moves to the next token, passing over indentation.
    fn next(&mut self) -> (r: Token)
        requires
            old(self).inv_loose(),
        ensures
            final(self).kept(old(self)),
            old(self).current.ttype != TokenType::EndOfFile ==> final(self).advanced(old(self)),
            r == final(self).current,
            old(self).current.ttype != TokenType::EndOfLine ==> final(self).previous == old(
                self,
            ).current,
            old(self).current.ttype != TokenType::EndOfFile ==> old(self).floor()
                <= final(self).previous.start && final(self).previous.end <= final(self).floor()
                && old(self).current.end <= final(self).floor(),
            old(self).tokeniser.state().last != TokenType::EndOfLine ==> final(self).current.ttype == next_type(old(self).b(), old(self).tokeniser.state()),
            old(self).current.ttype == TokenType::EndOfFile ==> final(self).current.ttype == TokenType::EndOfFile,
            old(self).tokeniser.state().last != TokenType::EndOfLine ==> final(self).tokeniser.state() == lex_next(old(self).b(), old(self).tokeniser.state()).1,
            old(self).tokeniser.state().last != TokenType::EndOfLine ==> final(self).current == next_token(old(self).b(), old(self).tokeniser.state()),
        decreases old(self).b().len() - old(self).tokeniser.state().position,
    {
        let ghost st = self.tokeniser.state();
        let ghost b = self.b();
        proof {
            self.tokeniser.lemma_wf();
        }
        let got = self.tokeniser.next();
        proof {
            lemma_lex_next_shape(b, st);
            self.tokeniser.lemma_wf();
        }
        let token = match got {
            Some(t) => t,
            None => Token::eof(),
        };
        self.previous = self.current;
        self.current = token;
        if token.ttype == TokenType::Whitespace {
            self.next()
        } else {
            token
        }
    }

    /// The kind of the token after the current one.
    fn peek(&self) -> (r: TokenType)
        requires
            self.inv(),
        ensures
            r == next_type(self.b(), self.tokeniser.state()),
    {
        let mut lookahead = self.tokeniser.duplicate();
        match lookahead.next() {
            Some(t) => t.ttype,
            None => TokenType::EndOfFile,
        }
    }

    fn current_advance(&mut self) -> (r: Token)
        requires
            old(self).inv(),
        ensures
            final(self).kept(old(self)),
            old(self).current.ttype != TokenType::EndOfFile ==> final(self).advanced(old(self)),
            old(self).current.ttype != TokenType::EndOfLine ==> r == old(self).current,
            token_ok(final(self).b(), r),
            old(self).current.ttype != TokenType::EndOfFile ==> old(self).floor() <= r.start
                && r.end <= final(self).floor(),
            old(self).current.ttype != TokenType::EndOfFile && old(self).current.ttype != TokenType::EndOfLine ==> final(self).current.ttype == next_type(old(self).b(), old(self).tokeniser.state()),
            old(self).current.ttype != TokenType::EndOfFile && old(self).current.ttype != TokenType::EndOfLine ==> final(self).tokeniser.state() == lex_next(old(self).b(), old(self).tokeniser.state()).1,
            old(self).current.ttype != TokenType::EndOfFile && old(self).current.ttype != TokenType::EndOfLine ==> final(self).current == next_token(old(self).b(), old(self).tokeniser.state()),
    {
        self.next();
        self.previous
    }

    fn expect(&mut self, token_type: TokenType, message: Error) -> (r: Result<Token, Error>)
        requires
            old(self).inv(),
        ensures
            *final(self) == *old(self),
            r is Ok <==> old(self).current.ttype == token_type,
            r matches Ok(t) ==> t == old(self).current,
            r matches Err(e) ==> e == message,
    {
        if self.current.ttype == token_type {
            Ok(self.current)
        } else {
            Err(message)
        }
    }

    fn consume(&mut self, token_type: TokenType, message: Error) -> (r: Result<Token, Error>)
        requires
            old(self).inv(),
            token_type != TokenType::EndOfFile,
        ensures
            final(self).kept(old(self)),
            r is Ok <==> old(self).current.ttype == token_type,
            r is Ok ==> final(self).advanced(old(self)),
            r matches Ok(t) ==> t == old(self).current && token_ok(final(self).b(), t),
            r matches Ok(t) ==> old(self).floor() == t.start && t.end <= final(self).floor(),
            r matches Err(e) ==> e == message,
            r is Ok && token_type != TokenType::EndOfLine ==> final(self).current == next_token(old(self).b(), old(self).tokeniser.state()) && final(self).tokeniser.state() == after(old(self).b(), old(self).tokeniser.state()),
            r is Ok && token_type != TokenType::EndOfLine ==> final(self).previous == old(self).current,
    {
        let result = self.expect(token_type, message)?;
        self.next();
        Ok(result)
    }

    fn expect_newline(&mut self) -> (r: Result<(), Error>)
        requires
            old(self).inv(),
        ensures
            final(self).kept(old(self)),
            r is Ok && old(self).current.ttype != TokenType::EndOfFile ==> old(self).current.end <= final(self).floor(),
            r is Ok <==> (old(self).current.ttype == TokenType::EndOfLine || old(self).current.ttype == TokenType::EndOfFile || line_ends(old(self).b(), old(self).tokeniser.state())),
            old(self).current.ttype == TokenType::EndOfFile ==> final(self).current.ttype == TokenType::EndOfFile,
            old(self).current.ttype != TokenType::EndOfLine && old(self).current.ttype != TokenType::EndOfFile && next_type(old(self).b(), old(self).tokeniser.state()) == TokenType::EndOfFile ==> final(self).current.ttype == TokenType::EndOfFile,
    {
        if self.matches(TokenType::EndOfLine) {
            return Ok(());
        }
        let current = self.next();
        if current.ttype == TokenType::EndOfLine || current.ttype == TokenType::EndOfFile {
            self.next();
            Ok(())
        } else {
            Err(Error::ExpectedNewLine)
        }
    }

    fn ignore_newline(&mut self)
        requires
            old(self).inv(),
        ensures
            final(self).kept(old(self)),
            final(self).current.ttype != TokenType::EndOfLine,
            old(self).current.ttype != TokenType::EndOfLine ==> *final(self) == *old(self),
    {
        loop
            invariant
                self.kept(old(self)),
                old(self).current.ttype != TokenType::EndOfLine ==> *self == *old(self),
            ensures
                self.kept(old(self)),
                self.current.ttype != TokenType::EndOfLine,
                old(self).current.ttype != TokenType::EndOfLine ==> *self == *old(self),
            decreases self.measure(),
        {
            if !self.matches(TokenType::EndOfLine) {
                break ;
            }
        }
    }

    fn matches(&mut self, token_type: TokenType) -> (r: bool)
        requires
            old(self).inv(),
        ensures
            final(self).kept(old(self)),
            r == (old(self).current.ttype == token_type),
            !r ==> *final(self) == *old(self),
            r && token_type != TokenType::EndOfFile ==> final(self).advanced(old(self)),
            r && token_type != TokenType::EndOfFile ==> old(self).current.end <= final(self).floor(),
            r && token_type != TokenType::EndOfFile && token_type != TokenType::EndOfLine ==> final(self).current == next_token(old(self).b(), old(self).tokeniser.state()) && final(self).tokeniser.state() == after(old(self).b(), old(self).tokeniser.state()),
    {
        let matches = self.current.ttype == token_type;
        if matches {
            self.next();
        }
        matches
    }

    #[verifier::spinoff_prover]
    #[verifier::rlimit(60)]
    fn parse_expression(&mut self, precedence: Precedence) -> (r: Result<Expression<'source>, Error>)
        requires
            old(self).inv(),
            precedence.spec_level() >= 2,
        ensures
            final(self).kept(old(self)),
            r is Ok ==> final(self).advanced(old(self)),
            r matches Ok(e) ==> (expr_plain(e) ==> expr_between(e, old(self).floor(), final(self).floor())),
            literal_ok(old(self).b(), old(self).current) && ends_expression(next_type(old(self).b(), old(self).tokeniser.state())) ==> r is Ok && final(self).current == next_token(old(self).b(), old(self).tokeniser.state()) && final(self).tokeniser.state() == after(old(self).b(), old(self).tokeniser.state()),
            expr_read(old(self).b(), old(self).current, old(self).tokeniser.state(), precedence.spec_level(), r, final(self).current, final(self).tokeniser.state()),
            old(self).current.ttype == TokenType::Unknown ==> r == Err::<Expression<'source>, Error>(Error::UnexpectedCharacter) && *final(self) == *old(self),
            old(self).current.ttype == TokenType::EndOfFile ==> (r matches Err(e) && e != Error::EmptyStatement),
        decreases old(self).measure(), 16nat,
    {
        reveal(expr_read);
        let ghost lone = literal_ok(old(self).b(), old(self).current) && ends_expression(
            next_type(old(self).b(), old(self).tokeniser.state()),
        );
        let ghost b = old(self).b();
        let ghost st = old(self).tokeniser.state();
        let ghost t0 = old(self).current;
        let ghost pair = operand_pair(b, t0, st) && precedence.spec_level() <= Precedence::spec_from(next_type(b, st)).spec_level();
        let ghost lone_variable = t0.ttype == TokenType::Identifier && line_ends(b, st);
        let ghost assign = precedence.spec_level() <= 2 && assignment_source(b, t0, st);
        let ghost grouped = t0.ttype == TokenType::LeftParen && bracketed_name(b, st) && ends_expression(next_type(b, after(b, after(b, st))));
        self.ignore_newline();
        let can_assign = precedence.level() <= Precedence::Assignment.level();
        let prefix = self.prefix_rule(self.current.ttype, can_assign)?;
        proof {
            if lone {
                assert(self.current.ttype == next_type(old(self).b(), old(self).tokeniser.state()));
            }
        }
        let mut previous = prefix;
        loop
            invariant
                self.advanced(old(self)),
                precedence.spec_level() >= 2,
                expr_plain(previous) ==> expr_between(previous, old(self).floor(), self.floor()),
                lone == (literal_ok(old(self).b(), old(self).current) && ends_expression(
                    next_type(old(self).b(), old(self).tokeniser.state()),
                )),
                lone ==> self.current == next_token(old(self).b(), old(self).tokeniser.state())
                    && self.tokeniser.state() == after(old(self).b(), old(self).tokeniser.state())
                    && ends_expression(self.current.ttype),
                lone ==> literal_of(old(self).b(), old(self).current, previous),
                b == old(self).b(),
                st == old(self).tokeniser.state(),
                t0 == old(self).current,
                pair == (operand_pair(b, t0, st) && precedence.spec_level() <= Precedence::spec_from(next_type(b, st)).spec_level()),
                pair ==> (self.current == next_token(b, st) && self.tokeniser.state() == after(b, st) && operand_of(b, t0, previous)) || (self.current == next_token(b, after(b, after(b, st))) && self.tokeniser.state() == after(b, after(b, after(b, st))) && operand_pair_of(b, t0, next_token(b, st), next_token(b, after(b, st)), previous)),
                lone_variable == (t0.ttype == TokenType::Identifier && line_ends(b, st)),
                old(self).current.ttype != TokenType::Unknown,
                assign == (precedence.spec_level() <= 2 && assignment_source(b, t0, st)),
                grouped == (t0.ttype == TokenType::LeftParen && bracketed_name(b, st) && ends_expression(next_type(b, after(b, after(b, st))))),
                !(t0.ttype == TokenType::LeftParen && unclosed_bracket(b, st)),
                t0.ttype != TokenType::EndOfFile,
                grouped ==> self.current == next_token(b, after(b, after(b, st))) && self.tokeniser.state() == after(b, after(b, after(b, st))) && bracketed_name_of(b, st, previous),
                assign ==> self.current.ttype == TokenType::EndOfFile && assignment_of(b, t0, st, previous),
                lone_variable ==> self.current == next_token(b, st) && self.tokeniser.state() == after(b, st) && variable_of(b, t0, previous),
            ensures
                pair ==> self.current == next_token(b, after(b, after(b, st))) && self.tokeniser.state() == after(b, after(b, after(b, st))) && operand_pair_of(b, t0, next_token(b, st), next_token(b, after(b, st)), previous),
            decreases self.measure(),
        {
            reveal(expr_read);
            let next = Precedence::from(self.current.ttype);
            if precedence.level() > next.level() {
                break ;
            }
            let can_assign = precedence.level() <= Precedence::Assignment.level();
            previous = self.infix_rule(self.current.ttype, previous, can_assign)?;
        }
        if can_assign {
            if self.matches(TokenType::Equal) {
                return Err(Error::InvalidAssignmentTarget);
            }
        }
        Ok(previous)
    }

    fn prefix_rule(&mut self, token_type: TokenType, can_assign: bool) -> (r: Result<
        Expression<'source>,
        Error,
    >)
        requires
            old(self).inv(),
            token_type == old(self).current.ttype,
        ensures
            final(self).kept(old(self)),
            r is Ok ==> final(self).advanced(old(self)),
            r matches Ok(e) ==> (expr_plain(e) ==> expr_between(e, old(self).floor(), final(self).floor())),
            literal_ok(old(self).b(), old(self).current) ==> r is Ok && final(self).current == next_token(old(self).b(), old(self).tokeniser.state()) && final(self).tokeniser.state() == after(old(self).b(), old(self).tokeniser.state()),
            literal_ok(old(self).b(), old(self).current) ==> (r matches Ok(e) && literal_of(old(self).b(), old(self).current, e)),
            old(self).current.ttype == TokenType::Identifier && !next_type(old(self).b(), old(self).tokeniser.state()).spec_is_assignment_operator() && next_type(old(self).b(), old(self).tokeniser.state()) != TokenType::Equal && next_type(old(self).b(), old(self).tokeniser.state()) != TokenType::ColonColon ==> (r matches Ok(e) && variable_of(old(self).b(), old(self).current, e)) && final(self).current == next_token(old(self).b(), old(self).tokeniser.state()) && final(self).tokeniser.state() == after(old(self).b(), old(self).tokeniser.state()),
            old(self).current.ttype == TokenType::Unknown ==> r == Err::<Expression<'source>, Error>(Error::UnexpectedCharacter) && *final(self) == *old(self),
            can_assign && assignment_source(old(self).b(), old(self).current, old(self).tokeniser.state()) ==> (r matches Ok(e) && assignment_of(old(self).b(), old(self).current, old(self).tokeniser.state(), e)) && final(self).current.ttype == TokenType::EndOfFile,
            old(self).current.ttype == TokenType::EndOfFile ==> (r matches Err(e) && e != Error::EmptyStatement),
            old(self).current.ttype == TokenType::LeftParen && unclosed_bracket(old(self).b(), old(self).tokeniser.state()) ==> (r matches Err(e) && e != Error::EmptyStatement),
            old(self).current.ttype == TokenType::LeftParen && bracketed_name(old(self).b(), old(self).tokeniser.state()) ==> (r matches Ok(e) && bracketed_name_of(old(self).b(), old(self).tokeniser.state(), e)) && final(self).current == next_token(old(self).b(), after(old(self).b(), after(old(self).b(), old(self).tokeniser.state()))) && final(self).tokeniser.state() == after(old(self).b(), after(old(self).b(), after(old(self).b(), old(self).tokeniser.state()))),
        decreases old(self).measure(), 15nat,
    {
        match token_type {
            TokenType::LeftParen => self.grouping_or_function(),
            TokenType::Minus | TokenType::Bang => self.unary(),
            TokenType::Identifier => self.variable(can_assign),
            TokenType::Number
            | TokenType::String
            | TokenType::True
            | TokenType::False
            | TokenType::Null => self.literal(),
            TokenType::FormatStringStart => self.format_string(),
            TokenType::LeftSquare => self.list(),
            TokenType::LeftBrace => self.dictionary(),
            TokenType::Unknown => Err(Error::UnexpectedCharacter),
            _ => Err(Error::ExpectedExpression),
        }
    }

    fn infix_rule(&mut self, token_type: TokenType, previous: Expression<'source>, can_assign: bool) -> (r:
        Result<Expression<'source>, Error>)
        requires
            expr_plain(previous) ==> expr_spans(previous) && previous.span.end <= old(self).floor(),
            old(self).inv(),
            token_type == old(self).current.ttype,
            Precedence::spec_from(token_type).spec_level() >= 2,
        ensures
            final(self).kept(old(self)),
            r is Ok ==> final(self).advanced(old(self)),
            r matches Ok(e) ==> (expr_plain(e) ==> expr_plain(previous) && expr_spans(e) && e.span.start == previous.span.start && e.span.end <= final(self).floor()),
            token_type == TokenType::Comment ==> r is Ok,
            crate::syntax::ast::is_binary_operator_token(token_type) && operand_ends(old(self).b(), next_token(old(self).b(), old(self).tokeniser.state()), next_type(old(self).b(), after(old(self).b(), old(self).tokeniser.state()))) ==> (r matches Ok(e) && (e.expr matches Expr::Binary { operator, left, right } && operator == BinaryOperator::spec_from(token_type) && *left == previous && operand_of(old(self).b(), next_token(old(self).b(), old(self).tokeniser.state()), *right))) && final(self).current == next_token(old(self).b(), after(old(self).b(), old(self).tokeniser.state())) && final(self).tokeniser.state() == after(old(self).b(), after(old(self).b(), old(self).tokeniser.state())),
        decreases old(self).measure(), 14nat,
    {
        match token_type {
            TokenType::LeftParen => self.call(previous),
            TokenType::LeftSquare => self.index(previous, can_assign),
            TokenType::Comment => Ok(self.comment(previous)),
            _ => self.binary(previous),
        }
    }
}

/// The indentation a token holds: its spaces and twice its tabs, halved.
pub open spec fn indentation(b: Seq<u8>, start: int, end: int) -> int
    decreases end - start,
{
    if start < end {
        (if 0 <= start < b.len() && b[start] == 32 {
            1int
        } else if 0 <= start < b.len() && b[start] == 9 {
            2int
        } else {
            0int
        }) + indentation(b, start + 1, end)
    } else {
        0
    }
}

proof fn lemma_indentation_step(b: Seq<u8>, start: int, end: int)
    requires
        start <= end,
    ensures
        indentation(b, start, end + 1) == indentation(b, start, end) + (if 0 <= end < b.len()
            && b[end] == 32 {
            1int
        } else if 0 <= end < b.len() && b[end] == 9 {
            2int
        } else {
            0int
        }),
        0 <= indentation(b, start, end) <= 2 * (end - start),
    decreases end - start,
{
    if start < end {
        lemma_indentation_step(b, start + 1, end);
    } else {
        assert(indentation(b, end + 1, end + 1) == 0);
    }
}

// Statements
impl<'source> Parser<'source> {
    fn block_depth(&self, token: Token) -> (r: i32)
        requires
            self.inv(),
            token.within(self.b()),
        ensures
            r == indentation(self.b(), token.start as int, token.end as int) / 2,
    {
        let ghost b = self.b();
        let mut depth: i32 = 0;
        let mut i: usize = token.start as usize;
        while i < token.end as usize
            invariant
                self.inv(),
                b == self.b(),
                token.within(b),
                token.start <= i <= token.end,
                depth == indentation(b, token.start as int, i as int),
            decreases token.end - i,
        {
            proof {
                lemma_indentation_step(b, token.start as int, i as int);
            }
            let c = self.source[i];
            if c == 32 {
                depth = depth + 1;
            } else if c == 9 {
                depth = depth + 2;
            }
            i = i + 1;
        }
        proof {
            lemma_indentation_step(b, token.start as int, i as int);
        }
        depth / 2
    }

    fn statement(&mut self) -> (r: Result<Statement<'source>, Error>)
        requires
            old(self).inv(),
        ensures
            final(self).kept(old(self)),
            r is Ok ==> final(self).advanced(old(self)),
            r matches Ok(st) ==> (stmt_plain(st) ==> stmt_between(st, old(self).floor(), final(self).floor())),
            old(self).previous.ttype != TokenType::Whitespace && literal_ok(old(self).b(), old(self).current) && line_ends(old(self).b(), old(self).tokeniser.state()) ==> r is Ok,
            old(self).previous.ttype != TokenType::Whitespace && literal_ok(old(self).b(), old(self).current) && next_type(old(self).b(), old(self).tokeniser.state()) == TokenType::EndOfFile ==> r is Ok && final(self).current.ttype == TokenType::EndOfFile,
            old(self).previous.ttype != TokenType::Whitespace ==> stmt_read(old(self).b(), old(self).current, old(self).tokeniser.state(), r, final(self).current),
            old(self).previous.ttype != TokenType::Whitespace && old(self).current.ttype == TokenType::Unknown ==> r == Err::<Statement<'source>, Error>(Error::UnexpectedCharacter) && *final(self) == *old(self),
            old(self).previous.ttype != TokenType::Whitespace ==> keyword_read(old(self).b(), old(self).current, old(self).tokeniser.state(), r, final(self).current),
        decreases old(self).measure(), 20nat,
    {
        reveal(stmt_read);
        reveal(keyword_read);
        self.ignore_newline();
        let ghost entry = *self;
        let mut last_token = self.previous;
        let depth = self.block_depth(last_token);
        if last_token.ttype != TokenType::Whitespace || depth == 0 {
            return self.stmt();
        }
        let mut statements: Vec<Statement<'source>> = Vec::new();
        assert(old(self).previous.ttype == TokenType::Whitespace || old(self).current.ttype
            == TokenType::EndOfLine);
        let ghost lo = entry.floor();
        let ghost mut hi = lo;
        loop
            invariant
                self.kept(old(self)),
                entry.kept(old(self)),
                token_ok(self.b(), last_token),
                statements.len() > 0 ==> self.advanced(old(self)),
                statements.len() == 0 ==> indentation(
                    self.b(),
                    last_token.start as int,
                    last_token.end as int,
                ) / 2 == depth as int && *self == entry,
                lo == entry.floor(),
                old(self).previous.ttype == TokenType::Whitespace || old(self).current.ttype
                    == TokenType::EndOfLine,
                stmts_plain(statements@) ==> stmts_between(statements@, lo, hi) && stmts_in_order(
                    statements@,
                ),
                lo <= hi <= self.floor(),
            decreases self.measure(),
        {
            reveal(stmt_read);
            reveal(keyword_read);
            if last_token.ttype != TokenType::Whitespace {
                break ;
            }
            let last_depth = self.block_depth(last_token);
            if last_depth < depth || self.current.ttype == TokenType::EndOfFile {
                break ;
            }
            let statement = if last_depth > depth {
                self.statement()?
            } else {
                self.stmt()?
            };
            proof {
                let s0 = statements@;
                lemma_stmts_between_push(s0, statement, lo, self.floor());
                if stmts_plain(s0) && stmt_plain(statement) {
                    lemma_stmts_between_widen(s0, lo, hi, lo, self.floor());
                    let s1 = s0.push(statement);
                    assert forall|i: int, j: int| 0 <= i < j < s1.len() implies s1[i].span.end
                        <= s1[j].span.start by {
                        if j == s0.len() {
                            lemma_stmts_between_index(s0, lo, hi, i);
                            assert(s1[i] == s0[i]);
                        } else {
                            assert(s1[i] == s0[i] && s1[j] == s0[j]);
                        }
                    }
                }
                hi = self.floor();
            }
            statements.push(statement);
            self.ignore_newline();
            last_token = self.previous;
        }
        if statements.len() == 0 {
            return Err(Error::EmptyStatement);
        }
        let span = join(statements[0].span, statements[statements.len() - 1].span);
        proof {
            let body = statements@;
            let n = body.len() as int;
            if stmts_plain(body) {
                assert forall|j: int| 0 <= j < n implies span_between(
                    #[trigger] body[j].span,
                    span.start as int,
                    span.end as int,
                ) && stmt_spans(body[j]) by {
                    lemma_stmts_between_index(body, lo, hi, j);
                    lemma_stmts_between_index(body, lo, hi, 0);
                    lemma_stmts_between_index(body, lo, hi, n - 1);
                }
                lemma_stmts_between_all(body, span.start as int, span.end as int);
                lemma_stmts_between_index(body, lo, hi, 0);
                lemma_stmts_between_index(body, lo, hi, n - 1);
            }
        }
        Ok(Statement { stmt: Stmt::Block { body: statements }, span })
    }

    #[verifier::spinoff_prover]
    #[verifier::rlimit(50)]
    fn stmt(&mut self) -> (r: Result<Statement<'source>, Error>)
        requires
            old(self).inv(),
        ensures
            final(self).kept(old(self)),
            r is Ok ==> final(self).advanced(old(self)),
            r matches Ok(st) ==> (stmt_plain(st) ==> stmt_between(st, old(self).floor(), final(self).floor())),
            literal_ok(old(self).b(), old(self).current) && line_ends(old(self).b(), old(self).tokeniser.state()) ==> r is Ok,
            literal_ok(old(self).b(), old(self).current) && next_type(old(self).b(), old(self).tokeniser.state()) == TokenType::EndOfFile ==> r is Ok && final(self).current.ttype == TokenType::EndOfFile,
            stmt_read(old(self).b(), old(self).current, old(self).tokeniser.state(), r, final(self).current),
            old(self).current.ttype == TokenType::Unknown ==> r == Err::<Statement<'source>, Error>(Error::UnexpectedCharacter) && *final(self) == *old(self),
            keyword_read(old(self).b(), old(self).current, old(self).tokeniser.state(), r, final(self).current),
        decreases old(self).measure(), 19nat,
    {
        reveal(stmt_read);
        reveal(keyword_read);
        match self.current.ttype {
            TokenType::Let => self.var_declaration(),
            TokenType::If => self.if_statement(),
            TokenType::Return => self.return_statement(),
            TokenType::While => self.while_statement(),
            TokenType::EndOfFile => Err(Error::EmptyStatement),
            TokenType::Comment => self.comment_statement(),
            TokenType::From => self.import_statement(),
            _ => self.expression_statement(),
        }
    }

    /// What a declaration binds: a name, a list of names in square
    /// brackets, or named items in braces; and its last token.
    fn declaration_target(&mut self) -> (r: Result<(DeclarationIdentifier<'source>, Token), Error>)
        requires
            old(self).inv(),
        ensures
            final(self).kept(old(self)),
            r is Ok ==> final(self).advanced(old(self)),
            r matches Ok(p) ==> (!(p.0 is Ordered) ==> old(self).floor() <= p.1.start <= p.1.end
                <= final(self).floor()),
            old(self).current.ttype == TokenType::Identifier ==> (r matches Ok(p) && p.1 == old(
                self,
            ).current && (p.0 matches DeclarationIdentifier::Variable(n) && bytes_of(n) == old(
                self,
            ).b().subrange(old(self).current.start as int, old(self).current.end as int)))
                && final(self).current == next_token(old(self).b(), old(self).tokeniser.state())
                && final(self).tokeniser.state() == after(old(self).b(), old(self).tokeniser.state()),
        decreases old(self).measure(), 17nat,
    {
        if self.current.ttype == TokenType::Identifier {
            let name = self.current_advance();
            Ok((DeclarationIdentifier::Variable(name.get_value(self.text)), name))
        } else if self.current.ttype == TokenType::LeftSquare {
            self.next();
            let mut identifiers: Vec<&'source str> = Vec::new();
            loop
                invariant
                    self.advanced(old(self)),
                decreases self.measure(),
            {
                if self.current.ttype != TokenType::Identifier {
                    break ;
                }
                let name = self.current_advance();
                identifiers.push(name.get_value(self.text));
                self.matches(TokenType::Comma);
                self.ignore_newline();
            }
            self.consume(TokenType::RightSquare, Error::ExpectedClosingSquare)?;
            Ok((DeclarationIdentifier::Ordered(identifiers), self.current))
        } else if self.current.ttype == TokenType::LeftBrace {
            self.next();
            let identifiers = self.alias_items()?;
            let end_token = self.current_advance();
            Ok((DeclarationIdentifier::Named(identifiers), end_token))
        } else {
            Err(Error::ExpectedIdentifier)
        }
    }

    #[verifier::spinoff_prover]
    #[verifier::rlimit(100)]
    fn var_declaration(&mut self) -> (r: Result<Statement<'source>, Error>)
        requires
            old(self).inv(),
            old(self).current.ttype == TokenType::Let,
        ensures
            final(self).kept(old(self)),
            r is Ok ==> final(self).advanced(old(self)),
            r matches Ok(st) ==> (stmt_plain(st) ==> stmt_between(st, old(self).floor(), final(self).floor())),
            next_type(old(self).b(), old(self).tokeniser.state()) == TokenType::Identifier && next_type(old(self).b(), after(old(self).b(), old(self).tokeniser.state())) != TokenType::Colon && next_type(old(self).b(), after(old(self).b(), old(self).tokeniser.state())) != TokenType::Equal ==> r is Ok,
            simple_declaration(old(self).b(), old(self).tokeniser.state()) ==> (r matches Ok(st) && simple_declaration_of(old(self).b(), old(self).tokeniser.state(), st)) && final(self).current.ttype == TokenType::EndOfFile,
        decreases old(self).measure(), 18nat,
    {
        let ghost b = old(self).b();
        let ghost st = old(self).tokeniser.state();
        let ghost sd = simple_declaration(b, st);
        let ghost s1 = after(b, st);
        let ghost s2 = after(b, s1);
        let ghost s4 = after(b, after(b, s2));
        let ghost plain = next_type(b, s1) == TokenType::Equal;
        assert(sd ==> next_type(b, st) == TokenType::Identifier && (plain ==> value_source(b, next_token(b, s2), after(b, s2))) && (!plain ==> next_type(b, s1) == TokenType::Colon && type_name_ok(next_type(b, s2), next_type(b, after(b, s2))) && next_type(b, after(b, s2)) == TokenType::Equal && value_source(b, next_token(b, s4), after(b, s4)))) by {
            reveal(simple_declaration);
        }
        let token = self.current_advance();
        assert(token.start == old(self).floor());
        assert(self.current == next_token(b, st) && self.tokeniser.state() == after(b, st));
        let target = self.declaration_target();
        assert(sd ==> (target matches Ok(p) && p.1 == next_token(b, st) && (p.0 matches DeclarationIdentifier::Variable(n) && bytes_of(n) == b.subrange(next_token(b, st).start as int, next_token(b, st).end as int)) && self.current == next_token(b, after(b, st)) && self.tokeniser.state() == after(b, after(b, st))));
        let (identifier, identifier_end) = target?;
        assert(!(identifier is Ordered) ==> token.start <= identifier_end.start
            <= identifier_end.end <= self.floor());
        let type_ = if self.matches(TokenType::Colon) {
            Some(self.types()?)
        } else {
            None
        };
        let end;
        let expression;
        let ghost before_equal = *self;
        if self.matches(TokenType::Equal) {
            let ghost before_value = *self;
            let parsed_result = self.expression();
            proof {
                lemma_value_read(b, before_value.current, before_value.tokeniser.state(), parsed_result, self.current, self.tokeniser.state());
            }
            let parsed = parsed_result?;
            let ghost parsed_copy = parsed;
            let span = parsed.span;
            let named = match parsed.expr {
                Expr::Function { parameters, return_type, body, name } => {
                    let name = match &identifier {
                        DeclarationIdentifier::Variable(identifier) => Some(*identifier),
                        _ => name,
                    };
                    Expression { expr: Expr::Function { parameters, return_type, body, name }, span }
                },
                other => Expression { expr: other, span },
            };
            assert(named.span == parsed_copy.span && expr_plain(named) == expr_plain(parsed_copy)
                && expr_spans(named) == expr_spans(parsed_copy));
            end = span;
            expression = Some(named);
        } else {
            end = Span::from(identifier_end);
            expression = None;
        }
        let result = Statement {
            stmt: Stmt::Declaration { identifier, type_, expression },
            span: Span { start: token.start, end: end.end },
        };
        proof {
            if sd {
                assert(simple_declaration_of(b, st, result)) by {
                    reveal(simple_declaration_of);
                }
            }
        }
        Ok(result)
    }

    fn return_statement(&mut self) -> (r: Result<Statement<'source>, Error>)
        requires
            old(self).inv(),
            old(self).current.ttype == TokenType::Return,
        ensures
            final(self).kept(old(self)),
            r is Ok ==> final(self).advanced(old(self)),
            r matches Ok(st) ==> (stmt_plain(st) ==> stmt_between(st, old(self).floor(), final(self).floor())),
            next_type(old(self).b(), old(self).tokeniser.state()) == TokenType::EndOfLine ==> r is Ok,
            literal_ok(old(self).b(), next_token(old(self).b(), old(self).tokeniser.state())) && line_ends(old(self).b(), after(old(self).b(), old(self).tokeniser.state())) ==> r is Ok,
        decreases old(self).measure(), 18nat,
    {
        let token = self.current_advance();
        if self.matches(TokenType::EndOfLine) {
            Ok(Statement { stmt: Stmt::Return { expression: None }, span: Span::from(token) })
        } else {
            let expression = self.expression()?;
            self.expect_newline()?;
            let span = Span { start: token.start, end: expression.span.end };
            Ok(Statement { stmt: Stmt::Return { expression: Some(expression) }, span })
        }
    }

    #[verifier::spinoff_prover]
    #[verifier::rlimit(100)]
    fn if_statement(&mut self) -> (r: Result<Statement<'source>, Error>)
        requires
            old(self).inv(),
            old(self).current.ttype == TokenType::If,
        ensures
            final(self).kept(old(self)),
            r is Ok ==> final(self).advanced(old(self)),
            r matches Ok(st) ==> (stmt_plain(st) ==> stmt_between(st, old(self).floor(), final(self).floor())),
            r matches Ok(st) ==> (st.stmt matches Stmt::If { otherwise, .. } && (otherwise is None ==> final(self).current.ttype != TokenType::Else)),
            next_type(old(self).b(), old(self).tokeniser.state()) == TokenType::LeftParen && literal_ok(old(self).b(), next_token(old(self).b(), after(old(self).b(), old(self).tokeniser.state()))) && next_type(old(self).b(), after(old(self).b(), after(old(self).b(), old(self).tokeniser.state()))) == TokenType::RightParen && literal_ok(old(self).b(), next_token(old(self).b(), after(old(self).b(), after(old(self).b(), after(old(self).b(), old(self).tokeniser.state()))))) && next_type(old(self).b(), after(old(self).b(), after(old(self).b(), after(old(self).b(), after(old(self).b(), old(self).tokeniser.state()))))) == TokenType::EndOfFile ==> r is Ok,
        decreases old(self).measure(), 18nat,
    {
        let if_token = self.current_advance();
        self.consume(TokenType::LeftParen, Error::ExpectedOpeningBracket)?;
        let condition = self.expression()?;
        self.ignore_newline();
        self.consume(TokenType::RightParen, Error::ExpectedClosingBracket)?;
        self.matches(TokenType::EndOfLine);
        let body = self.statement()?;
        self.ignore_newline();
        let end;
        let otherwise;
        if self.matches(TokenType::Else) {
            self.ignore_newline();
            let statement = self.statement()?;
            end = statement.span;
            otherwise = Some(Box::new(statement));
        } else {
            end = body.span;
            otherwise = None;
        }
        Ok(
            Statement {
                stmt: Stmt::If { condition, then: Box::new(body), otherwise },
                span: Span { start: if_token.start, end: end.end },
            },
        )
    }

    #[verifier::spinoff_prover]
    #[verifier::rlimit(80)]
    fn while_statement(&mut self) -> (r: Result<Statement<'source>, Error>)
        requires
            old(self).inv(),
            old(self).current.ttype == TokenType::While,
        ensures
            final(self).kept(old(self)),
            r is Ok ==> final(self).advanced(old(self)),
            r matches Ok(st) ==> (stmt_plain(st) ==> stmt_between(st, old(self).floor(), final(self).floor())),
            next_type(old(self).b(), old(self).tokeniser.state()) == TokenType::LeftParen && literal_ok(old(self).b(), next_token(old(self).b(), after(old(self).b(), old(self).tokeniser.state()))) && next_type(old(self).b(), after(old(self).b(), after(old(self).b(), old(self).tokeniser.state()))) == TokenType::RightParen && literal_ok(old(self).b(), next_token(old(self).b(), after(old(self).b(), after(old(self).b(), after(old(self).b(), old(self).tokeniser.state()))))) && line_ends(old(self).b(), after(old(self).b(), after(old(self).b(), after(old(self).b(), after(old(self).b(), old(self).tokeniser.state()))))) ==> r is Ok,
        decreases old(self).measure(), 18nat,
    {
        let token = self.current_advance();
        self.consume(TokenType::LeftParen, Error::ExpectedOpeningBracket)?;
        let condition = self.expression()?;
        self.ignore_newline();
        self.consume(TokenType::RightParen, Error::ExpectedClosingBracket)?;
        self.matches(TokenType::EndOfLine);
        let body = self.statement()?;
        let span = Span { start: token.start, end: body.span.end };
        Ok(Statement { stmt: Stmt::While { condition, body: Box::new(body) }, span })
    }

    fn comment_statement(&mut self) -> (r: Result<Statement<'source>, Error>)
        requires
            old(self).inv(),
            old(self).current.ttype == TokenType::Comment,
        ensures
            final(self).kept(old(self)),
            r is Ok ==> final(self).advanced(old(self)),
            r matches Ok(st) ==> (stmt_plain(st) ==> stmt_between(st, old(self).floor(), final(self).floor())),
            r is Ok <==> (next_type(old(self).b(), old(self).tokeniser.state()) == TokenType::EndOfLine || next_type(old(self).b(), old(self).tokeniser.state()) == TokenType::EndOfFile || line_ends(old(self).b(), lex_next(old(self).b(), old(self).tokeniser.state()).1)),
            r matches Ok(st) ==> (st.span == Span::spec_from(old(self).current) && (st.stmt matches Stmt::Comment { text } && bytes_of(text) == old(self).b().subrange(old(self).current.start as int, old(self).current.end as int))),
        decreases old(self).measure(), 18nat,
    {
        let token = self.current_advance();
        let text = token.get_value(self.text);
        self.expect_newline()?;
        Ok(Statement { stmt: Stmt::Comment { text }, span: Span::from(token) })
    }

    #[verifier::spinoff_prover]
    #[verifier::rlimit(50)]
    fn expression_statement(&mut self) -> (r: Result<Statement<'source>, Error>)
        requires
            old(self).inv(),
        ensures
            final(self).kept(old(self)),
            r is Ok ==> final(self).advanced(old(self)),
            r matches Ok(st) ==> (stmt_plain(st) ==> stmt_between(st, old(self).floor(), final(self).floor())),
            literal_ok(old(self).b(), old(self).current) && line_ends(old(self).b(), old(self).tokeniser.state()) ==> r is Ok,
            literal_ok(old(self).b(), old(self).current) && next_type(old(self).b(), old(self).tokeniser.state()) == TokenType::EndOfFile ==> r is Ok && final(self).current.ttype == TokenType::EndOfFile,
            stmt_read(old(self).b(), old(self).current, old(self).tokeniser.state(), r, final(self).current),
            old(self).current.ttype == TokenType::Unknown ==> r == Err::<Statement<'source>, Error>(Error::UnexpectedCharacter) && *final(self) == *old(self),
        decreases old(self).measure(), 18nat,
    {
        reveal(stmt_read);
        reveal(expr_read);
        let expression = self.expression()?;
        self.expect_newline()?;
        let span = expression.span;
        Ok(Statement { stmt: Stmt::Expression { expression }, span })
    }

    fn alias_items(&mut self) -> (r: Result<Vec<ImportItem<'source>>, Error>)
        requires
            old(self).inv(),
        ensures
            final(self).kept(old(self)),
            r is Ok ==> final(self).current.ttype == TokenType::RightBrace,
            old(self).current.ttype == TokenType::RightBrace ==> (r matches Ok(v) && v@.len() == 0),
            old(self).current.ttype == TokenType::RightBrace ==> *final(self) == *old(self),
            aliased_item(old(self).b(), old(self).current, old(self).tokeniser.state()) ==> (r matches Ok(v) && aliased_item_of(old(self).b(), old(self).current, old(self).tokeniser.state(), v@)) && final(self).current == next_token(old(self).b(), after(old(self).b(), after(old(self).b(), old(self).tokeniser.state()))) && final(self).tokeniser.state() == after(old(self).b(), after(old(self).b(), after(old(self).b(), old(self).tokeniser.state()))),
        decreases old(self).measure(), 13nat,
    {
        let mut items: Vec<ImportItem<'source>> = Vec::new();
        let ghost at_close = old(self).current.ttype == TokenType::RightBrace;
        let ghost b = old(self).b();
        let ghost st = old(self).tokeniser.state();
        let ghost t0 = old(self).current;
        let ghost one = aliased_item(b, t0, st);
        loop
            invariant_except_break
                at_close ==> self.current.ttype == TokenType::RightBrace,
                at_close ==> *self == *old(self),
                one ==> *self == *old(self) && items@.len() == 0,
            invariant
                at_close == (old(self).current.ttype == TokenType::RightBrace),
                at_close ==> items@.len() == 0,
                self.kept(old(self)),
                b == old(self).b(),
                st == old(self).tokeniser.state(),
                t0 == old(self).current,
                one == aliased_item(b, t0, st),
            ensures
                one ==> aliased_item_of(b, t0, st, items@) && self.current == next_token(b, after(b, after(b, st))) && self.tokeniser.state() == after(b, after(b, after(b, st))),
                at_close ==> items@.len() == 0,
                at_close ==> *self == *old(self),
                self.kept(old(self)),
                self.current.ttype == TokenType::RightBrace,
            decreases self.measure(),
        {
            self.ignore_newline();
            if self.current.ttype == TokenType::RightBrace {
                break ;
            }
            let item = self.consume(TokenType::Identifier, Error::ExpectedIdentifier)?;
            let alias = if self.matches(TokenType::As) {
                let token = self.consume(TokenType::Identifier, Error::ExpectedIdentifier)?;
                Some(token.get_value(self.text))
            } else {
                None
            };
            items.push(ImportItem { name: item.get_value(self.text), span: Span::from(item), alias });
            if !self.matches(TokenType::Comma) {
                self.ignore_newline();
                self.expect(TokenType::RightBrace, Error::ExpectedClosingBrace)?;
                break ;
            }
        }
        Ok(items)
    }

    #[verifier::spinoff_prover]
    #[verifier::rlimit(60)]
    fn import_statement(&mut self) -> (r: Result<Statement<'source>, Error>)
        requires
            old(self).inv(),
            old(self).current.ttype == TokenType::From,
        ensures
            final(self).kept(old(self)),
            r is Ok ==> final(self).advanced(old(self)),
            r matches Ok(st) ==> (stmt_plain(st) ==> stmt_between(st, old(self).floor(), final(self).floor())),
            next_type(old(self).b(), old(self).tokeniser.state()) == TokenType::Identifier && next_type(old(self).b(), after(old(self).b(), old(self).tokeniser.state())) == TokenType::Import && next_type(old(self).b(), after(old(self).b(), after(old(self).b(), old(self).tokeniser.state()))) == TokenType::LeftBrace && next_type(old(self).b(), after(old(self).b(), after(old(self).b(), after(old(self).b(), old(self).tokeniser.state())))) == TokenType::RightBrace && line_ends(old(self).b(), after(old(self).b(), after(old(self).b(), after(old(self).b(), after(old(self).b(), old(self).tokeniser.state()))))) ==> r is Ok,
            aliased_import(old(self).b(), old(self).tokeniser.state()) ==> (r matches Ok(st) && aliased_import_of(old(self).b(), old(self).tokeniser.state(), st)) && final(self).current.ttype == TokenType::EndOfFile,
        decreases old(self).measure(), 18nat,
    {
        let token = self.current_advance();
        let module;
        if self.current.ttype == TokenType::String {
            let string_token = self.current_advance();
            let string = string_token.get_value(self.text);
            proof {
                assert(bytes_of(string)[0] == self.b()[string_token.start as int]);
            }
            module = check_string(string)?;
        } else {
            let name = self.consume(TokenType::Identifier, Error::ExpectedIdentifier)?;
            module = name.get_value(self.text);
        }
        self.consume(TokenType::Import, Error::ExpectedImportKeyword)?;
        self.consume(TokenType::LeftBrace, Error::ExpectedOpeningBrace)?;
        let items = self.alias_items()?;
        let end_token = self.current;
        self.expect_newline()?;
        Ok(
            Statement {
                stmt: Stmt::Import { module, items },
                span: Span { start: token.start, end: end_token.end },
            },
        )
    }
}

/// The text of a string literal between its quotes, when it ends with the
/// quote that it starts with.
fn check_string<'a>(string: &'a str) -> (r: Result<&'a str, Error>)
    requires
        bytes_of(string).len() > 0,
        bytes_of(string)[0] < 128,
    ensures
        ({
            let b = bytes_of(string);
            &&& r is Ok <==> (b.len() > 1 && b[0] == b[b.len() - 1])
            &&& r matches Ok(s) ==> bytes_of(s) == b.subrange(1, b.len() - 1)
            &&& r matches Err(e) ==> e == Error::UnterminatedString
        }),
{
    let bytes = string.as_bytes();
    let length = bytes.len();
    if length > 1 && bytes[0] == bytes[length - 1] {
        proof {
            lemma_ascii_next_boundary(string, 0);
            vstd::utf8::encode_utf8_valid_utf8(string@);
        }
        Ok(slice_str(string, 1, length - 1))
    } else {
        Err(Error::UnterminatedString)
    }
}

// Expressions
impl<'source> Parser<'source> {
    fn expression(&mut self) -> (r: Result<Expression<'source>, Error>)
        requires
            old(self).inv(),
        ensures
            final(self).kept(old(self)),
            r is Ok ==> final(self).advanced(old(self)),
            r matches Ok(e) ==> (expr_plain(e) ==> expr_between(e, old(self).floor(), final(self).floor())),
            literal_ok(old(self).b(), old(self).current) && ends_expression(next_type(old(self).b(), old(self).tokeniser.state())) ==> r is Ok && final(self).current == next_token(old(self).b(), old(self).tokeniser.state()) && final(self).tokeniser.state() == after(old(self).b(), old(self).tokeniser.state()),
            expr_read(old(self).b(), old(self).current, old(self).tokeniser.state(), 2, r, final(self).current, final(self).tokeniser.state()),
            old(self).current.ttype == TokenType::Unknown ==> r == Err::<Expression<'source>, Error>(Error::UnexpectedCharacter) && *final(self) == *old(self),
            old(self).current.ttype == TokenType::EndOfFile ==> (r matches Err(e) && e != Error::EmptyStatement),
        decreases old(self).measure(), 17nat,
    {
        self.parse_expression(Precedence::Assignment)
    }

    #[verifier::spinoff_prover]
    #[verifier::rlimit(50)]
    fn grouping_or_function(&mut self) -> (r: Result<Expression<'source>, Error>)
        requires
            old(self).inv(),
            old(self).current.ttype == TokenType::LeftParen,
        ensures
            final(self).kept(old(self)),
            r is Ok ==> final(self).advanced(old(self)),
            r matches Ok(e) ==> (expr_plain(e) ==> expr_between(e, old(self).floor(), final(self).floor())),
            literal_ok(old(self).b(), next_token(old(self).b(), old(self).tokeniser.state())) && next_type(old(self).b(), after(old(self).b(), old(self).tokeniser.state())) == TokenType::RightParen ==> r is Ok,
            unclosed_bracket(old(self).b(), old(self).tokeniser.state()) ==> (r matches Err(e) && e != Error::EmptyStatement),
            bracketed_name(old(self).b(), old(self).tokeniser.state()) ==> (r matches Ok(e) && bracketed_name_of(old(self).b(), old(self).tokeniser.state(), e)) && final(self).current == next_token(old(self).b(), after(old(self).b(), after(old(self).b(), old(self).tokeniser.state()))) && final(self).tokeniser.state() == after(old(self).b(), after(old(self).b(), after(old(self).b(), old(self).tokeniser.state()))),
        decreases old(self).measure(), 14nat,
    {
        let opening_bracket = self.current_advance();
        assert(opening_bracket.start == old(self).floor());
        self.ignore_newline();
        if self.current.ttype == TokenType::Identifier {
            let following = self.peek();
            if following == TokenType::Colon || following == TokenType::Comma {
                self.function(opening_bracket)
            } else if following == TokenType::RightParen {
                let identifier = self.current_advance();
                assert(self.current.ttype == TokenType::RightParen);
                let closing_bracket = self.current_advance();
                if self.current.ttype == TokenType::RightArrow || self.current.ttype
                    == TokenType::FatRightArrow {
                    let parameter = Parameter {
                        name: identifier.get_value(self.text),
                        span: Span::from(identifier),
                        type_: None,
                    };
                    let mut parameters = Vec::new();
                    parameters.push(parameter);
                    self.function_body(opening_bracket, parameters)
                } else {
                    let variable = Expression {
                        expr: Expr::Variable { name: identifier.get_value(self.text) },
                        span: Span::from(identifier),
                    };
                    assert(expr_spans(variable));
                    Ok(
                        Expression {
                            expr: Expr::Group { expression: Box::new(variable) },
                            span: Span { start: opening_bracket.start, end: closing_bracket.end },
                        },
                    )
                }
            } else {
                self.grouping(opening_bracket)
            }
        } else if self.current.ttype == TokenType::RightParen {
            self.function(opening_bracket)
        } else {
            self.grouping(opening_bracket)
        }
    }

    fn function(&mut self, opening_bracket: Token) -> (r: Result<Expression<'source>, Error>)
        requires
            opening_bracket.start <= old(self).floor(),
            old(self).inv(),
        ensures
            final(self).kept(old(self)),
            r matches Ok(e) ==> (expr_plain(e) ==> expr_spans(e) && e.span.start == opening_bracket.start && e.span.end <= final(self).floor()),
            old(self).current.ttype == TokenType::RightParen && next_type(old(self).b(), old(self).tokeniser.state()) == TokenType::FatRightArrow && literal_ok(old(self).b(), next_token(old(self).b(), after(old(self).b(), old(self).tokeniser.state()))) && ends_expression(next_type(old(self).b(), after(old(self).b(), after(old(self).b(), old(self).tokeniser.state())))) ==> r is Ok,
            old(self).current.ttype == TokenType::RightParen && next_type(old(self).b(), old(self).tokeniser.state()) == TokenType::EndOfFile ==> (r matches Err(e) && e != Error::EmptyStatement),
        decreases old(self).measure(), 12nat,
    {
        let mut parameters: Vec<Parameter<'source>> = Vec::new();
        let ghost c = old(self).current.ttype == TokenType::RightParen && next_type(old(self).b(), old(self).tokeniser.state()) == TokenType::FatRightArrow && literal_ok(old(self).b(), next_token(old(self).b(), after(old(self).b(), old(self).tokeniser.state()))) && ends_expression(next_type(old(self).b(), after(old(self).b(), after(old(self).b(), old(self).tokeniser.state()))));
        let ghost d = old(self).current.ttype == TokenType::RightParen && next_type(old(self).b(), old(self).tokeniser.state()) == TokenType::EndOfFile;
        loop
            invariant_except_break
                c ==> *self == *old(self),
                d ==> *self == *old(self),
            invariant
                self.kept(old(self)),
                c == (old(self).current.ttype == TokenType::RightParen && next_type(old(self).b(), old(self).tokeniser.state()) == TokenType::FatRightArrow && literal_ok(old(self).b(), next_token(old(self).b(), after(old(self).b(), old(self).tokeniser.state()))) && ends_expression(next_type(old(self).b(), after(old(self).b(), after(old(self).b(), old(self).tokeniser.state()))))),
                d == (old(self).current.ttype == TokenType::RightParen && next_type(old(self).b(), old(self).tokeniser.state()) == TokenType::EndOfFile),
            ensures
                self.kept(old(self)),
                c ==> self.current == next_token(old(self).b(), old(self).tokeniser.state()) && self.tokeniser.state() == after(old(self).b(), old(self).tokeniser.state()),
                d ==> self.current.ttype == TokenType::EndOfFile,
            decreases self.measure(),
        {
            self.ignore_newline();
            if self.matches(TokenType::RightParen) {
                break ;
            }
            let parameter = self.consume(TokenType::Identifier, Error::ExpectedIdentifier)?;
            let type_ = if self.matches(TokenType::Colon) {
                Some(self.types()?)
            } else {
                None
            };
            parameters.push(
                Parameter {
                    name: parameter.get_value(self.text),
                    span: Span::from(parameter),
                    type_,
                },
            );
            if !self.matches(TokenType::Comma) {
                self.ignore_newline();
                self.consume(TokenType::RightParen, Error::ExpectedClosingBracket)?;
                break ;
            }
        }
        self.function_body(opening_bracket, parameters)
    }

    fn function_body(&mut self, opening_bracket: Token, parameters: Vec<Parameter<'source>>) -> (r:
        Result<Expression<'source>, Error>)
        requires
            opening_bracket.start <= old(self).floor(),
            old(self).inv(),
        ensures
            final(self).kept(old(self)),
            r matches Ok(e) ==> (expr_plain(e) ==> expr_spans(e) && e.span.start == opening_bracket.start && e.span.end <= final(self).floor()),
            old(self).current.ttype == TokenType::FatRightArrow && literal_ok(old(self).b(), next_token(old(self).b(), old(self).tokeniser.state())) && ends_expression(next_type(old(self).b(), after(old(self).b(), old(self).tokeniser.state()))) ==> r is Ok,
            old(self).current.ttype == TokenType::EndOfFile ==> (r matches Err(e) && e != Error::EmptyStatement),
        decreases old(self).measure(), 11nat,
    {
        let body;
        let return_type;
        if self.matches(TokenType::FatRightArrow) {
            let expression = self.expression()?;
            let span = Span { start: opening_bracket.start, end: expression.span.end };
            body = Statement { stmt: Stmt::Return { expression: Some(expression) }, span };
            return_type = None;
        } else if self.matches(TokenType::RightArrow) {
            return_type = self.optional_types()?;
            self.ignore_newline();
            body = self.statement()?;
        } else {
            return Err(Error::ExpectedFunctionArrow);
        }
        assert(stmt_plain(body) ==> stmt_spans(body) && opening_bracket.start <= body.span.start
            && body.span.end <= self.floor());
        let span = Span { start: opening_bracket.start, end: body.span.end };
        Ok(
            Expression {
                expr: Expr::Function { body: Box::new(body), parameters, name: None, return_type },
                span,
            },
        )
    }

    fn grouping(&mut self, opening_bracket: Token) -> (r: Result<Expression<'source>, Error>)
        requires
            opening_bracket.start <= old(self).floor(),
            old(self).inv(),
        ensures
            final(self).kept(old(self)),
            r matches Ok(e) ==> (expr_plain(e) ==> expr_spans(e) && e.span.start == opening_bracket.start && e.span.end <= final(self).floor()),
            literal_ok(old(self).b(), old(self).current) && next_type(old(self).b(), old(self).tokeniser.state()) == TokenType::RightParen ==> r is Ok,
            old(self).current.ttype == TokenType::EndOfFile || (old(self).current.ttype == TokenType::Identifier && next_type(old(self).b(), old(self).tokeniser.state()) == TokenType::EndOfFile) ==> (r matches Err(e) && e != Error::EmptyStatement),
        decreases old(self).measure(), 18nat,
    {
        reveal(expr_read);
        let expression = self.expression()?;
        self.ignore_newline();
        let end_token = self.consume(TokenType::RightParen, Error::ExpectedClosingBracket)?;
        Ok(
            Expression {
                expr: Expr::Group { expression: Box::new(expression) },
                span: Span { start: opening_bracket.start, end: end_token.end },
            },
        )
    }

    fn unary(&mut self) -> (r: Result<Expression<'source>, Error>)
        requires
            old(self).inv(),
            old(self).current.ttype == TokenType::Minus || old(self).current.ttype
                == TokenType::Bang,
        ensures
            final(self).kept(old(self)),
            r is Ok ==> final(self).advanced(old(self)),
            r matches Ok(e) ==> (e.expr matches Expr::Unary { operator, .. } && operator
                == UnaryOperator::spec_from(old(self).current.ttype)),
            r matches Ok(e) ==> e.span.start == old(self).current.start,
            r matches Ok(e) ==> (expr_plain(e) ==> expr_between(e, old(self).floor(), final(self).floor())),
            literal_ok(old(self).b(), next_token(old(self).b(), old(self).tokeniser.state())) && ends_expression(next_type(old(self).b(), after(old(self).b(), old(self).tokeniser.state()))) ==> r is Ok,
        decreases old(self).measure(), 14nat,
    {
        let token = self.current_advance();
        let expression = self.parse_expression(Precedence::Unary)?;
        let span = Span { start: token.start, end: expression.span.end };
        Ok(
            Expression {
                expr: Expr::Unary {
                    operator: UnaryOperator::from(token.ttype),
                    expression: Box::new(expression),
                },
                span,
            },
        )
    }

    fn literal(&mut self) -> (r: Result<Expression<'source>, Error>)
        requires
            old(self).inv(),
            old(self).current.ttype == TokenType::Number || old(self).current.ttype
                == TokenType::String || old(self).current.ttype == TokenType::True || old(
                self,
            ).current.ttype == TokenType::False || old(self).current.ttype == TokenType::Null,
        ensures
            final(self).kept(old(self)),
            r is Ok ==> final(self).advanced(old(self)),
            r matches Ok(e) ==> (expr_plain(e) ==> expr_between(e, old(self).floor(), final(self).floor())),
            r is Ok <==> (old(self).current.ttype == TokenType::String ==> string_closed(old(self).b(), old(self).current)),
            r matches Ok(e) ==> (e.span == Span::spec_from(old(self).current) && (e.expr matches Expr::Literal { value, type_ } && type_ == LiteralType::spec_from(old(self).current.ttype) && bytes_of(value) == literal_bytes(old(self).b(), old(self).current))),
            r is Ok ==> final(self).current == next_token(old(self).b(), old(self).tokeniser.state()) && final(self).tokeniser.state() == after(old(self).b(), old(self).tokeniser.state()),
        decreases old(self).measure(), 14nat,
    {
        let token = self.current_advance();
        let string = token.get_value(self.text);
        let value = if token.ttype == TokenType::String {
            proof {
                assert(bytes_of(string)[0] == self.b()[token.start as int]);
            }
            check_string(string)?
        } else {
            string
        };
        Ok(Expression { expr: Expr::Literal { value, type_: LiteralType::from(token.ttype) }, span: Span::from(token) })
    }

    fn format_string(&mut self) -> (r: Result<Expression<'source>, Error>)
        requires
            old(self).inv(),
            old(self).current.ttype == TokenType::FormatStringStart,
        ensures
            final(self).kept(old(self)),
            r is Ok ==> final(self).advanced(old(self)),
            r matches Ok(e) ==> (expr_plain(e) ==> expr_between(e, old(self).floor(), final(self).floor())),
            literal_ok(old(self).b(), next_token(old(self).b(), old(self).tokeniser.state())) && next_type(old(self).b(), after(old(self).b(), old(self).tokeniser.state())) == TokenType::FormatStringEnd && next_token(old(self).b(), after(old(self).b(), old(self).tokeniser.state())).end - next_token(old(self).b(), after(old(self).b(), old(self).tokeniser.state())).start >= 2 && old(self).b()[next_token(old(self).b(), after(old(self).b(), old(self).tokeniser.state())).end - 1] == old(self).b()[old(self).current.start as int] ==> r is Ok,
        decreases old(self).measure(), 14nat,
    {
        let token = self.current_advance();
        assert(token.start == old(self).floor());
        let ghost b = self.b();
        let quote = self.source[token.start as usize];
        proof {
            lemma_ascii_next_boundary(self.text, token.start as int);
        }
        let start = slice_str(self.text, token.start as usize + 1, token.end as usize - 2);
        let mut strings: Vec<String> = Vec::new();
        strings.push(String::from_str(start));
        let mut expressions: Vec<Expression<'source>> = Vec::new();
        let ghost lo = old(self).floor();
        let ghost mut hi = self.floor();
        let end_token: Token;
        let ghost c = literal_ok(old(self).b(), next_token(old(self).b(), old(self).tokeniser.state())) && next_type(old(self).b(), after(old(self).b(), old(self).tokeniser.state())) == TokenType::FormatStringEnd && next_token(old(self).b(), after(old(self).b(), old(self).tokeniser.state())).end - next_token(old(self).b(), after(old(self).b(), old(self).tokeniser.state())).start >= 2 && old(self).b()[next_token(old(self).b(), after(old(self).b(), old(self).tokeniser.state())).end - 1] == old(self).b()[old(self).current.start as int];
        loop
            invariant_except_break
                c ==> self.current == next_token(old(self).b(), old(self).tokeniser.state()) && self.tokeniser.state() == after(old(self).b(), old(self).tokeniser.state()),
            invariant
                self.advanced(old(self)),
                b == self.b(),
                quote < 128,
                c == (literal_ok(old(self).b(), next_token(old(self).b(), old(self).tokeniser.state())) && next_type(old(self).b(), after(old(self).b(), old(self).tokeniser.state())) == TokenType::FormatStringEnd && next_token(old(self).b(), after(old(self).b(), old(self).tokeniser.state())).end - next_token(old(self).b(), after(old(self).b(), old(self).tokeniser.state())).start >= 2 && old(self).b()[next_token(old(self).b(), after(old(self).b(), old(self).tokeniser.state())).end - 1] == old(self).b()[old(self).current.start as int]),
                quote == old(self).b()[old(self).current.start as int],
                lo == old(self).floor(),
                exprs_plain(expressions@) ==> exprs_between(expressions@, lo, hi),
                lo <= hi <= self.floor(),
            ensures
                self.advanced(old(self)),
                exprs_plain(expressions@) ==> exprs_between(expressions@, lo, hi),
                lo <= hi <= end_token.start <= end_token.end <= self.floor(),
            decreases self.measure(),
        {
            let expression = self.expression()?;
            proof {
                if exprs_plain(expressions@) {
                    lemma_exprs_between_widen(expressions@, lo, hi, lo, self.floor());
                }
                lemma_exprs_between_push(expressions@, expression, lo, self.floor());
                hi = self.floor();
            }
            expressions.push(expression);
            if self.current.ttype == TokenType::FormatStringPart {
                let part = self.current_advance();
                proof {
                    lemma_ascii_next_boundary(self.text, part.start as int);
                }
                strings.push(
                    String::from_str(
                        slice_str(self.text, part.start as usize + 1, part.end as usize - 2),
                    ),
                );
            } else if self.current.ttype == TokenType::FormatStringEnd {
                let part = self.current;
                if !(part.end - part.start >= 2 && self.source[part.end as usize - 1] == quote) {
                    return Err(Error::UnterminatedString);
                }
                proof {
                    lemma_ascii_next_boundary(self.text, part.start as int);
                }
                strings.push(
                    String::from_str(
                        slice_str(self.text, part.start as usize + 1, part.end as usize - 1),
                    ),
                );
                end_token = self.current_advance();
                break ;
            } else {
                return Err(Error::UnterminatedString);
            }
        }
        proof {
            if exprs_plain(expressions@) {
                lemma_exprs_between_widen(expressions@, lo, hi, lo, end_token.end as int);
            }
        }
        Ok(
            Expression {
                expr: Expr::FormatString { expressions, strings },
                span: Span { start: token.start, end: end_token.end },
            },
        )
    }

    fn list(&mut self) -> (r: Result<Expression<'source>, Error>)
        requires
            old(self).inv(),
            old(self).current.ttype == TokenType::LeftSquare,
        ensures
            final(self).kept(old(self)),
            r is Ok ==> final(self).advanced(old(self)),
            r matches Ok(e) ==> (expr_plain(e) ==> expr_between(e, old(self).floor(), final(self).floor())),
            next_type(old(self).b(), old(self).tokeniser.state()) == TokenType::RightSquare ==> (r matches Ok(e) && (e.expr matches Expr::List { items } && items@.len() == 0)),
        decreases old(self).measure(), 14nat,
    {
        let start_token = self.current_advance();
        assert(start_token.start == old(self).floor());
        let mut items: Vec<Expression<'source>> = Vec::new();
        let ghost lo = old(self).floor();
        let ghost mut hi = self.floor();
        let end_token: Token;
        let ghost at_close = next_type(old(self).b(), old(self).tokeniser.state()) == TokenType::RightSquare;
        loop
            invariant_except_break
                at_close ==> self.current.ttype == TokenType::RightSquare,
            invariant
                at_close == (next_type(old(self).b(), old(self).tokeniser.state()) == TokenType::RightSquare),
                at_close ==> items@.len() == 0,
                self.advanced(old(self)),
                lo == old(self).floor(),
                exprs_plain(items@) ==> exprs_between(items@, lo, hi),
                lo <= hi <= self.floor(),
            ensures
                at_close ==> items@.len() == 0,
                self.advanced(old(self)),
                exprs_plain(items@) ==> exprs_between(items@, lo, hi),
                lo <= hi <= end_token.start <= end_token.end <= self.floor(),
            decreases self.measure(),
        {
            self.ignore_newline();
            if self.current.ttype == TokenType::RightSquare {
                end_token = self.current_advance();
                break ;
            }
            let item = self.expression()?;
            proof {
                if exprs_plain(items@) {
                    lemma_exprs_between_widen(items@, lo, hi, lo, self.floor());
                }
                lemma_exprs_between_push(items@, item, lo, self.floor());
                hi = self.floor();
            }
            items.push(item);
            if !self.matches(TokenType::Comma) {
                self.ignore_newline();
                end_token = self.consume(TokenType::RightSquare, Error::ExpectedClosingSquare)?;
                break ;
            }
        }
        proof {
            if exprs_plain(items@) {
                lemma_exprs_between_widen(items@, lo, hi, start_token.start as int, end_token.end as int);
            }
        }
        Ok(
            Expression {
                expr: Expr::List { items },
                span: Span { start: start_token.start, end: end_token.end },
            },
        )
    }

    #[verifier::spinoff_prover]
    #[verifier::rlimit(60)]
    fn dictionary(&mut self) -> (r: Result<Expression<'source>, Error>)
        requires
            old(self).inv(),
            old(self).current.ttype == TokenType::LeftBrace,
        ensures
            final(self).kept(old(self)),
            r is Ok ==> final(self).advanced(old(self)),
            r matches Ok(e) ==> (expr_plain(e) ==> expr_between(e, old(self).floor(), final(self).floor())),
            next_type(old(self).b(), old(self).tokeniser.state()) == TokenType::RightBrace ==> (r matches Ok(e) && (e.expr matches Expr::Dictionary { items } && items@.len() == 0)),
        decreases old(self).measure(), 14nat,
    {
        let start_token = self.current_advance();
        assert(start_token.start == old(self).floor());
        let mut items: Vec<(Expression<'source>, Expression<'source>)> = Vec::new();
        let ghost lo = old(self).floor();
        let ghost mut hi = self.floor();
        let end_token: Token;
        let ghost at_close = next_type(old(self).b(), old(self).tokeniser.state()) == TokenType::RightBrace;
        loop
            invariant_except_break
                at_close ==> self.current.ttype == TokenType::RightBrace,
            invariant
                at_close == (next_type(old(self).b(), old(self).tokeniser.state()) == TokenType::RightBrace),
                at_close ==> items@.len() == 0,
                self.advanced(old(self)),
                lo == old(self).floor(),
                entries_plain(items@) ==> entries_between(items@, lo, hi),
                lo <= hi <= self.floor(),
            ensures
                at_close ==> items@.len() == 0,
                self.advanced(old(self)),
                entries_plain(items@) ==> entries_between(items@, lo, hi),
                lo <= hi <= end_token.start <= end_token.end <= self.floor(),
            decreases self.measure(),
        {
            self.ignore_newline();
            if self.current.ttype == TokenType::RightBrace {
                end_token = self.current_advance();
                break ;
            }
            let shorthand = self.current.ttype == TokenType::Identifier && (self.peek()
                == TokenType::Comma || self.peek() == TokenType::RightBrace);
            if shorthand {
                let name = self.current.get_value(self.text);
                let key = Expression {
                    expr: Expr::Literal { type_: LiteralType::String, value: name },
                    span: Span::from(self.current),
                };
                let value = Expression {
                    expr: Expr::Variable { name },
                    span: Span::from(self.current),
                };
                self.next();
                proof {
                    if entries_plain(items@) {
                        lemma_entries_between_widen(items@, lo, hi, lo, self.floor());
                    }
                    lemma_entries_between_push(items@, (key, value), lo, self.floor());
                    hi = self.floor();
                }
                items.push((key, value));
            } else {
                let key = self.expression()?;
                self.consume(TokenType::Colon, Error::ExpectedColon)?;
                self.ignore_newline();
                let value = self.expression()?;
                proof {
                    if entries_plain(items@) {
                        lemma_entries_between_widen(items@, lo, hi, lo, self.floor());
                    }
                    lemma_entries_between_push(items@, (key, value), lo, self.floor());
                    hi = self.floor();
                }
                items.push((key, value));
            }
            if !self.matches(TokenType::Comma) {
                self.ignore_newline();
                end_token = self.consume(TokenType::RightBrace, Error::ExpectedClosingSquare)?;
                break ;
            }
        }
        proof {
            if entries_plain(items@) {
                lemma_entries_between_widen(items@, lo, hi, lo, end_token.end as int);
            }
        }
        Ok(
            Expression {
                expr: Expr::Dictionary { items },
                span: Span { start: start_token.start, end: end_token.end },
            },
        )
    }

    #[verifier::spinoff_prover]
    #[verifier::rlimit(60)]
    fn variable(&mut self, can_assign: bool) -> (r: Result<Expression<'source>, Error>)
        requires
            old(self).inv(),
            old(self).current.ttype == TokenType::Identifier,
        ensures
            final(self).kept(old(self)),
            r is Ok ==> final(self).advanced(old(self)),
            r matches Ok(e) ==> (expr_plain(e) ==> expr_between(e, old(self).floor(), final(self).floor())),
            !next_type(old(self).b(), old(self).tokeniser.state()).spec_is_assignment_operator() && next_type(old(self).b(), old(self).tokeniser.state()) != TokenType::Equal && next_type(old(self).b(), old(self).tokeniser.state()) != TokenType::ColonColon ==> (r matches Ok(e) && (e.expr matches Expr::Variable { name } && bytes_of(name) == old(self).b().subrange(old(self).current.start as int, old(self).current.end as int))),
            !next_type(old(self).b(), old(self).tokeniser.state()).spec_is_assignment_operator() && next_type(old(self).b(), old(self).tokeniser.state()) != TokenType::Equal && next_type(old(self).b(), old(self).tokeniser.state()) != TokenType::ColonColon ==> (r matches Ok(e) && variable_of(old(self).b(), old(self).current, e)) && final(self).current == next_token(old(self).b(), old(self).tokeniser.state()) && final(self).tokeniser.state() == after(old(self).b(), old(self).tokeniser.state()),
            can_assign && assignment_source(old(self).b(), old(self).current, old(self).tokeniser.state()) ==> (r matches Ok(e) && assignment_of(old(self).b(), old(self).current, old(self).tokeniser.state(), e)) && final(self).current.ttype == TokenType::EndOfFile,
        decreases old(self).measure(), 14nat,
    {
        let ghost b = old(self).b();
        let ghost st = old(self).tokeniser.state();
        let identifier = self.current_advance();
        assert(identifier.start == old(self).floor());
        let name = identifier.get_value(self.text);
        let is_assignment_operator = self.current.ttype.is_assignment_operator();
        if can_assign && is_assignment_operator {
            let ghost f1 = self.floor();
            let operator = self.current_advance();
            let right = self.expression()?;
            let end_span = right.span;
            let left = Expression { expr: Expr::Variable { name }, span: Span::from(identifier) };
            let ghost right_copy = right;
            proof {
                assert(identifier.end <= f1);
                assert(expr_spans(left));
                assert(expr_plain(left));
            }
            let binary = Expression {
                expr: Expr::Binary {
                    operator: AssignmentOperator::token_to_binary(operator.ttype),
                    left: Box::new(left),
                    right: Box::new(right),
                },
                span: Span { start: identifier.start, end: end_span.end },
            };
            assert(expr_plain(binary) ==> expr_spans(binary) && expr_plain(right_copy));
            return Ok(
                Expression {
                    expr: Expr::Assignment { identifier: name, expression: Box::new(binary) },
                    span: Span { start: identifier.start, end: end_span.end },
                },
            );
        }
        if self.matches(TokenType::Equal) && can_assign {
            let ghost before_value = *self;
            let expression_result = self.expression();
            proof {
                lemma_value_read(b, before_value.current, before_value.tokeniser.state(), expression_result, self.current, self.tokeniser.state());
            }
            let expression = expression_result?;
            let span = Span { start: identifier.start, end: expression.span.end };
            return Ok(
                Expression {
                    expr: Expr::Assignment { identifier: name, expression: Box::new(expression) },
                    span,
                },
            );
        }
        if self.matches(TokenType::ColonColon) {
            let item = self.consume(TokenType::Identifier, Error::ExpectedModuleItem)?;
            return Ok(
                Expression {
                    expr: Expr::ModuleAccess { module: name, item: item.get_value(self.text) },
                    span: Span { start: identifier.start, end: item.end },
                },
            );
        }
        Ok(Expression { expr: Expr::Variable { name }, span: Span::from(identifier) })
    }

    #[verifier::spinoff_prover]
    #[verifier::rlimit(100)]
    fn index(&mut self, previous: Expression<'source>, can_assign: bool) -> (r: Result<
        Expression<'source>,
        Error,
    >)
        requires
            expr_plain(previous) ==> expr_spans(previous) && previous.span.end <= old(self).floor(),
            old(self).inv(),
            old(self).current.ttype == TokenType::LeftSquare,
        ensures
            final(self).kept(old(self)),
            r is Ok ==> final(self).advanced(old(self)),
            r matches Ok(e) ==> indexes(e, previous),
            r matches Ok(e) ==> (expr_plain(e) ==> expr_plain(previous) && expr_spans(e) && e.span.start == previous.span.start && e.span.end <= final(self).floor()),
            literal_ok(old(self).b(), next_token(old(self).b(), old(self).tokeniser.state())) && next_type(old(self).b(), after(old(self).b(), old(self).tokeniser.state())) == TokenType::RightSquare && !next_type(old(self).b(), after(old(self).b(), after(old(self).b(), old(self).tokeniser.state()))).spec_is_assignment_operator() && next_type(old(self).b(), after(old(self).b(), after(old(self).b(), old(self).tokeniser.state()))) != TokenType::Equal ==> r is Ok,
        decreases old(self).measure(), 13nat,
    {
        let _start_token = self.current_advance();
        self.ignore_newline();
        let expression = self.expression()?;
        self.ignore_newline();
        let end_token = self.consume(TokenType::RightSquare, Error::ExpectedClosingSquare)?;
        let is_assignment_operator = self.current.ttype.is_assignment_operator();
        if can_assign && is_assignment_operator {
            let operator = self.current_advance();
            let right = self.expression()?;
            let span = Span { start: previous.span.start, end: right.span.end };
            return Ok(
                Expression {
                    expr: Expr::IndexAssignment {
                        expression: Box::new(previous),
                        index: Box::new(expression),
                        assignment_operator: AssignmentOperator::from_token(operator.ttype),
                        value: Box::new(right),
                    },
                    span,
                },
            );
        }
        if self.matches(TokenType::Equal) && can_assign {
            let right = self.expression()?;
            let span = Span { start: previous.span.start, end: right.span.end };
            return Ok(
                Expression {
                    expr: Expr::IndexAssignment {
                        expression: Box::new(previous),
                        index: Box::new(expression),
                        assignment_operator: None,
                        value: Box::new(right),
                    },
                    span,
                },
            );
        }
        let span = Span { start: previous.span.start, end: end_token.end };
        Ok(
            Expression {
                expr: Expr::Index { expression: Box::new(previous), index: Box::new(expression) },
                span,
            },
        )
    }

    fn call(&mut self, previous: Expression<'source>) -> (r: Result<Expression<'source>, Error>)
        requires
            expr_plain(previous) ==> expr_spans(previous) && previous.span.end <= old(self).floor(),
            old(self).inv(),
            old(self).current.ttype == TokenType::LeftParen,
        ensures
            final(self).kept(old(self)),
            r is Ok ==> final(self).advanced(old(self)),
            r matches Ok(e) ==> (e.expr matches Expr::Call { expression, .. } && *expression
                == previous),
            r matches Ok(e) ==> (expr_plain(e) ==> expr_plain(previous) && expr_spans(e) && e.span.start == previous.span.start && e.span.end <= final(self).floor()),
            next_type(old(self).b(), old(self).tokeniser.state()) == TokenType::RightParen ==> (r matches Ok(e) && (e.expr matches Expr::Call { arguments, .. } && arguments@.len() == 0)),
        decreases old(self).measure(), 13nat,
    {
        let _start_token = self.current_advance();
        let mut arguments: Vec<Expression<'source>> = Vec::new();
        let ghost lo = previous.span.start as int;
        let ghost mut hi = self.floor();
        let end_token: Token;
        let ghost at_close = next_type(old(self).b(), old(self).tokeniser.state()) == TokenType::RightParen;
        loop
            invariant_except_break
                at_close ==> self.current.ttype == TokenType::RightParen,
            invariant
                at_close == (next_type(old(self).b(), old(self).tokeniser.state()) == TokenType::RightParen),
                at_close ==> arguments@.len() == 0,
                self.advanced(old(self)),
                lo == previous.span.start,
                expr_plain(previous) ==> expr_spans(previous) && previous.span.end <= hi,
                expr_plain(previous) && exprs_plain(arguments@) ==> exprs_between(arguments@, lo, hi),
                hi <= self.floor(),
            ensures
                at_close ==> arguments@.len() == 0,
                self.advanced(old(self)),
                expr_plain(previous) ==> expr_spans(previous) && previous.span.end <= hi,
                expr_plain(previous) && exprs_plain(arguments@) ==> exprs_between(arguments@, lo, hi),
                hi <= end_token.start <= end_token.end <= self.floor(),
            decreases self.measure(),
        {
            self.ignore_newline();
            if self.current.ttype == TokenType::RightParen {
                end_token = self.current_advance();
                break ;
            }
            let argument = self.expression()?;
            proof {
                if expr_plain(previous) && exprs_plain(arguments@) {
                    lemma_exprs_between_widen(arguments@, lo, hi, lo, self.floor());
                }
                lemma_exprs_between_push(arguments@, argument, lo, self.floor());
                hi = self.floor();
            }
            arguments.push(argument);
            if !self.matches(TokenType::Comma) {
                self.ignore_newline();
                end_token = self.consume(TokenType::RightParen, Error::ExpectedClosingBracket)?;
                break ;
            }
        }
        proof {
            if expr_plain(previous) && exprs_plain(arguments@) {
                lemma_exprs_between_widen(arguments@, lo, hi, lo, end_token.end as int);
            }
        }
        let span = Span { start: previous.span.start, end: end_token.end };
        Ok(Expression { expr: Expr::Call { expression: Box::new(previous), arguments }, span })
    }

    fn comment(&mut self, previous: Expression<'source>) -> (r: Expression<'source>)
        requires
            expr_plain(previous) ==> expr_spans(previous) && previous.span.end <= old(self).floor(),
            old(self).inv(),
            old(self).current.ttype == TokenType::Comment,
        ensures
            final(self).advanced(old(self)),
            expr_plain(r) ==> expr_plain(previous) && expr_spans(r) && r.span.start == previous.span.start && r.span.end <= final(self).floor(),
            r.expr matches Expr::Comment { expression, .. } && *expression == previous,
    {
        let token = self.current_advance();
        let span = Span { start: previous.span.start, end: token.end };
        Expression {
            expr: Expr::Comment {
                expression: Box::new(previous),
                text: token.get_value(self.text),
            },
            span,
        }
    }

    fn binary(&mut self, previous: Expression<'source>) -> (r: Result<Expression<'source>, Error>)
        requires
            expr_plain(previous) ==> expr_spans(previous) && previous.span.end <= old(self).floor(),
            old(self).inv(),
            crate::syntax::ast::is_binary_operator_token(old(self).current.ttype),
        ensures
            final(self).kept(old(self)),
            r is Ok ==> final(self).advanced(old(self)),
            r matches Ok(e) ==> (e.expr matches Expr::Binary { operator, left, .. } && operator
                == BinaryOperator::spec_from(old(self).current.ttype) && *left == previous),
            r matches Ok(e) ==> e.span.start == previous.span.start,
            operand_ends(old(self).b(), next_token(old(self).b(), old(self).tokeniser.state()), next_type(old(self).b(), after(old(self).b(), old(self).tokeniser.state()))) ==> (r matches Ok(e) && (e.expr matches Expr::Binary { right, .. } && operand_of(old(self).b(), next_token(old(self).b(), old(self).tokeniser.state()), *right))) && final(self).current == next_token(old(self).b(), after(old(self).b(), old(self).tokeniser.state())) && final(self).tokeniser.state() == after(old(self).b(), after(old(self).b(), old(self).tokeniser.state())),
            r matches Ok(e) ==> (expr_plain(e) ==> expr_plain(previous) && expr_spans(e) && e.span.start == previous.span.start && e.span.end <= final(self).floor()),
            literal_ok(old(self).b(), next_token(old(self).b(), old(self).tokeniser.state())) && ends_expression(next_type(old(self).b(), after(old(self).b(), old(self).tokeniser.state()))) ==> r is Ok,
        decreases old(self).measure(), 13nat,
    {
        reveal(expr_read);
        let operator = self.current_advance();
        let precedence = Precedence::from(operator.ttype);
        let right = self.parse_expression(precedence.next())?;
        let span = Span { start: previous.span.start, end: right.span.end };
        Ok(
            Expression {
                expr: Expr::Binary {
                    operator: BinaryOperator::from(operator.ttype),
                    left: Box::new(previous),
                    right: Box::new(right),
                },
                span,
            },
        )
    }
}

// Types
impl<'source> Parser<'source> {
    fn optional_types(&mut self) -> (r: Result<Option<TypeExpression<'source>>, Error>)
        requires
            old(self).inv(),
        ensures
            final(self).kept(old(self)),
            old(self).current.ttype == TokenType::EndOfLine || old(self).current.ttype == TokenType::Comma ==> r == Ok::<Option<TypeExpression<'source>>, Error>(None),
            !(old(self).current.ttype == TokenType::EndOfLine || old(self).current.ttype == TokenType::Comma) ==> !(r matches Ok(None)),
        decreases old(self).measure(), 10nat,
    {
        if self.current.ttype == TokenType::EndOfLine || self.current.ttype == TokenType::Comma {
            Ok(None)
        } else {
            Ok(Some(self.types()?))
        }
    }

    fn types(&mut self) -> (r: Result<TypeExpression<'source>, Error>)
        requires
            old(self).inv(),
        ensures
            final(self).kept(old(self)),
            r is Ok ==> final(self).advanced(old(self)),
            type_name_ok(old(self).current.ttype, next_type(old(self).b(), old(self).tokeniser.state())) ==> (r matches Ok(t) && t.span == Span::spec_from(old(self).current) && (t.type_ matches Type::Named(n) && bytes_of(n) == old(self).b().subrange(old(self).current.start as int, old(self).current.end as int))),
            type_name_ok(old(self).current.ttype, next_type(old(self).b(), old(self).tokeniser.state())) ==> final(self).current == next_token(old(self).b(), old(self).tokeniser.state()) && final(self).tokeniser.state() == after(old(self).b(), old(self).tokeniser.state()),
            applied_type(old(self).b(), old(self).current, old(self).tokeniser.state()) ==> (r matches Ok(t) && applied_type_of(old(self).b(), old(self).current, next_token(old(self).b(), after(old(self).b(), old(self).tokeniser.state())), t)),
        decreases old(self).measure(), 9nat,
    {
        let token = self.current;
        let mut t = if token.ttype == TokenType::Less {
            self.type_generic()
        } else if token.ttype == TokenType::Identifier || token.ttype == TokenType::Null
            || token.ttype == TokenType::True || token.ttype == TokenType::False {
            self.next();
            if self.matches(TokenType::LeftParen) {
                self.type_param(token)
            } else {
                Ok(TypeExpression { type_: Type::Named(token.get_value(self.text)), span: Span::from(token) })
            }
        } else if token.ttype == TokenType::LeftParen {
            self.type_group()
        } else {
            Err(Error::ExpectedType)
        };
        let ghost after_first = *self;
        if self.matches(TokenType::LeftSquare) {
            let inner = t?;
            t = self.type_list(inner);
        }
        if self.current.ttype == TokenType::Pipe {
            let left = t?;
            self.type_union(left)
        } else if self.current.ttype == TokenType::Question {
            let left = t?;
            Ok(self.type_optional(left))
        } else {
            t
        }
    }

    fn type_union(&mut self, left: TypeExpression<'source>) -> (r: Result<TypeExpression<'source>, Error>)
        requires
            old(self).inv(),
            old(self).current.ttype == TokenType::Pipe,
        ensures
            final(self).kept(old(self)),
            r is Ok ==> final(self).advanced(old(self)),
            r matches Ok(t) ==> (t.type_ matches Type::Union(l, _) && *l == left && t.span.start
                == left.span.start),
            type_name_ok(next_type(old(self).b(), old(self).tokeniser.state()), next_type(old(self).b(), after(old(self).b(), old(self).tokeniser.state()))) ==> r is Ok,
        decreases old(self).measure(), 8nat,
    {
        let _token = self.current_advance();
        let right = self.types()?;
        let span = Span { start: left.span.start, end: right.span.end };
        Ok(TypeExpression { type_: Type::Union(Box::new(left), Box::new(right)), span })
    }

    fn type_optional(&mut self, left: TypeExpression<'source>) -> (r: TypeExpression<'source>)
        requires
            old(self).inv(),
            old(self).current.ttype == TokenType::Question,
        ensures
            final(self).advanced(old(self)),
    {
        let token = self.current_advance();
        let span = Span { start: left.span.start, end: token.end };
        TypeExpression { type_: Type::Optional(Box::new(left)), span }
    }

    fn type_list(&mut self, left: TypeExpression<'source>) -> (r: Result<TypeExpression<'source>, Error>)
        requires
            old(self).inv(),
        ensures
            final(self).kept(old(self)),
            r is Ok ==> final(self).advanced(old(self)),
            r is Ok <==> old(self).current.ttype == TokenType::RightSquare,
            r matches Ok(t) ==> t.type_ == Type::List(Box::new(left)) && t.span == (Span {
                start: left.span.start,
                end: old(self).current.end,
            }),
    {
        let end_token = self.consume(TokenType::RightSquare, Error::ExpectedClosingSquare)?;
        let span = Span { start: left.span.start, end: end_token.end };
        Ok(TypeExpression { type_: Type::List(Box::new(left)), span })
    }

    fn type_group(&mut self) -> (r: Result<TypeExpression<'source>, Error>)
        requires
            old(self).inv(),
            old(self).current.ttype == TokenType::LeftParen,
        ensures
            final(self).kept(old(self)),
            r is Ok ==> final(self).advanced(old(self)),
            next_type(old(self).b(), old(self).tokeniser.state()) == TokenType::RightParen && next_type(old(self).b(), after(old(self).b(), old(self).tokeniser.state())) == TokenType::RightArrow && type_name_ok(next_type(old(self).b(), after(old(self).b(), after(old(self).b(), old(self).tokeniser.state()))), next_type(old(self).b(), after(old(self).b(), after(old(self).b(), after(old(self).b(), old(self).tokeniser.state()))))) ==> r is Ok,
        decreases old(self).measure(), 8nat,
    {
        let opening_bracket = self.current_advance();
        if self.matches(TokenType::RightParen) {
            return self.type_function_body(opening_bracket, Vec::new());
        }
        let types = self.types()?;
        if self.current.ttype == TokenType::Comma {
            self.next();
            self.type_function(opening_bracket, types)
        } else if self.current.ttype == TokenType::RightParen {
            let end_token = self.current_advance();
            if self.current.ttype == TokenType::RightArrow || self.current.ttype
                == TokenType::FatRightArrow {
                let mut parameters = Vec::new();
                parameters.push(types);
                self.type_function_body(opening_bracket, parameters)
            } else {
                let span = Span { start: opening_bracket.start, end: end_token.end };
                Ok(TypeExpression { type_: Type::Group(Box::new(types)), span })
            }
        } else if self.current.ttype == TokenType::DotDot {
            self.next();
            let ty = self.types()?;
            self.consume(TokenType::LeftParen, Error::ExpectedClosingBracket)?;
            let mut parameters = Vec::new();
            parameters.push(ty);
            self.type_function_body(opening_bracket, parameters)
        } else {
            Err(Error::ExpectedClosingBrace)
        }
    }

    fn type_generic(&mut self) -> (r: Result<TypeExpression<'source>, Error>)
        requires
            old(self).inv(),
            old(self).current.ttype == TokenType::Less,
        ensures
            final(self).kept(old(self)),
            r is Ok ==> final(self).advanced(old(self)),
            next_type(old(self).b(), old(self).tokeniser.state()) == TokenType::Identifier && next_type(old(self).b(), after(old(self).b(), old(self).tokeniser.state())) == TokenType::Greater && type_name_ok(next_type(old(self).b(), after(old(self).b(), after(old(self).b(), old(self).tokeniser.state()))), next_type(old(self).b(), after(old(self).b(), after(old(self).b(), after(old(self).b(), old(self).tokeniser.state()))))) ==> r is Ok,
        decreases old(self).measure(), 8nat,
    {
        let opening_bracket = self.current_advance();
        if self.matches(TokenType::Greater) {
            return Err(Error::ExpectedIdentifier);
        }
        let mut generics: Vec<&'source str> = Vec::new();
        let ghost c = next_type(old(self).b(), old(self).tokeniser.state()) == TokenType::Identifier && next_type(old(self).b(), after(old(self).b(), old(self).tokeniser.state())) == TokenType::Greater && type_name_ok(next_type(old(self).b(), after(old(self).b(), after(old(self).b(), old(self).tokeniser.state()))), next_type(old(self).b(), after(old(self).b(), after(old(self).b(), after(old(self).b(), old(self).tokeniser.state())))));
        loop
            invariant_except_break
                c ==> self.current == next_token(old(self).b(), old(self).tokeniser.state()) && self.tokeniser.state() == after(old(self).b(), old(self).tokeniser.state()),
            invariant
                self.advanced(old(self)),
                c == (next_type(old(self).b(), old(self).tokeniser.state()) == TokenType::Identifier && next_type(old(self).b(), after(old(self).b(), old(self).tokeniser.state())) == TokenType::Greater && type_name_ok(next_type(old(self).b(), after(old(self).b(), after(old(self).b(), old(self).tokeniser.state()))), next_type(old(self).b(), after(old(self).b(), after(old(self).b(), after(old(self).b(), old(self).tokeniser.state())))))),
            ensures
                self.advanced(old(self)),
                c ==> self.current == next_token(old(self).b(), after(old(self).b(), after(old(self).b(), old(self).tokeniser.state()))) && self.tokeniser.state() == after(old(self).b(), after(old(self).b(), after(old(self).b(), old(self).tokeniser.state()))),
            decreases self.measure(),
        {
            if self.matches(TokenType::Greater) {
                break ;
            }
            let g = self.consume(TokenType::Identifier, Error::ExpectedIdentifier)?;
            generics.push(g.get_value(self.text));
            if self.current.ttype == TokenType::Comma {
                self.next();
            } else if self.current.ttype == TokenType::Greater {
                self.next();
                break ;
            } else {
                return Err(Error::ExpectedClosingAngle);
            }
        }
        let type_ = self.types()?;
        let span = Span { start: opening_bracket.start, end: self.current.end };
        Ok(TypeExpression { type_: Type::WithGeneric(generics, Box::new(type_)), span })
    }

    fn type_param(&mut self, name: Token) -> (r: Result<TypeExpression<'source>, Error>)
        requires
            old(self).inv(),
            token_ok(old(self).b(), name),
        ensures
            final(self).kept(old(self)),
            r matches Ok(t) ==> (t.span.start == name.start && (t.type_ matches Type::Parameter(n, params) && bytes_of(n) == old(self).b().subrange(name.start as int, name.end as int) && params@.len() >= 1)),
            type_name_ok(old(self).current.ttype, next_type(old(self).b(), old(self).tokeniser.state())) && next_type(old(self).b(), old(self).tokeniser.state()) == TokenType::RightParen ==> (r matches Ok(t) && applied_type_of(old(self).b(), name, old(self).current, t)) && final(self).current == next_token(old(self).b(), after(old(self).b(), old(self).tokeniser.state())) && final(self).tokeniser.state() == after(old(self).b(), after(old(self).b(), old(self).tokeniser.state())),
        decreases old(self).measure(), 10nat,
    {
        let ghost b = old(self).b();
        let ghost st = old(self).tokeniser.state();
        let ghost c = type_name_ok(old(self).current.ttype, next_type(b, st)) && next_type(b, st) == TokenType::RightParen;
        let ghost argument = old(self).current;
        let mut params: Vec<TypeExpression<'source>> = Vec::new();
        let first = self.types()?;
        params.push(first);
        loop
            invariant
                self.kept(old(self)),
                token_ok(self.b(), name),
                params@.len() >= 1,
                b == old(self).b(),
                st == old(self).tokeniser.state(),
                argument == old(self).current,
                c == (type_name_ok(old(self).current.ttype, next_type(b, st)) && next_type(b, st) == TokenType::RightParen),
                c ==> self.current == next_token(b, st) && self.tokeniser.state() == after(b, st) && params@.len() == 1 && (params@[0].type_ matches Type::Named(m) && bytes_of(m) == b.subrange(argument.start as int, argument.end as int)),
            decreases self.measure(),
        {
            if !self.matches(TokenType::Comma) {
                break ;
            }
            if self.current.ttype == TokenType::RightParen {
                break ;
            }
            let param = self.types()?;
            params.push(param);
        }
        let end_token = self.consume(TokenType::RightParen, Error::ExpectedClosingBracket)?;
        let span = Span { start: name.start, end: end_token.end };
        Ok(TypeExpression { type_: Type::Parameter(name.get_value(self.text), params), span })
    }

    fn type_function(&mut self, start_token: Token, first_parameter: TypeExpression<'source>) -> (r:
        Result<TypeExpression<'source>, Error>)
        requires
            old(self).inv(),
        ensures
            final(self).kept(old(self)),
            r matches Ok(t) ==> (t.span.start == start_token.start && (t.type_ matches Type::Function(_, params) && params@.len() >= 1 && params@[0] == first_parameter)),
        decreases old(self).measure(), 10nat,
    {
        let mut parameters: Vec<TypeExpression<'source>> = Vec::new();
        let ghost first = first_parameter;
        parameters.push(first_parameter);
        loop
            invariant
                self.kept(old(self)),
                parameters@.len() >= 1,
                parameters@[0] == first,
            decreases self.measure(),
        {
            if self.matches(TokenType::RightParen) {
                break ;
            }
            let parameter = self.types()?;
            parameters.push(parameter);
            if !self.matches(TokenType::Comma) {
                self.consume(TokenType::RightParen, Error::ExpectedClosingBracket)?;
                break ;
            }
        }
        self.type_function_body(start_token, parameters)
    }

    fn type_function_body(&mut self, start_token: Token, parameters: Vec<TypeExpression<'source>>) -> (r:
        Result<TypeExpression<'source>, Error>)
        requires
            old(self).inv(),
        ensures
            final(self).kept(old(self)),
            r is Ok ==> final(self).advanced(old(self)),
            r matches Ok(t) ==> (t.span.start == start_token.start && (t.type_ matches Type::Function(_, ps) && ps == parameters)),
            old(self).current.ttype == TokenType::RightArrow && type_name_ok(next_type(old(self).b(), old(self).tokeniser.state()), next_type(old(self).b(), after(old(self).b(), old(self).tokeniser.state()))) ==> r is Ok,
        decreases old(self).measure(), 6nat,
    {
        self.consume(TokenType::RightArrow, Error::ExpectedFunctionArrow)?;
        let return_type = self.types()?;
        let span = Span { start: start_token.start, end: self.current.end };
        Ok(TypeExpression { type_: Type::Function(Box::new(return_type), parameters), span })
    }

    /// The token to report an error at: the current one, or the one before
    /// at the end of the source.
    fn error_token(&self) -> (r: Token)
        requires
            self.inv(),
        ensures
            token_ok(self.b(), r),
            r == if self.current.ttype == TokenType::EndOfFile {
                self.previous
            } else {
                self.current
            },
    {
        if self.current.ttype == TokenType::EndOfFile {
            self.previous
        } else {
            self.current
        }
    }
}

/// Parses a whole source into statements, or reports the first error.
///
/// The statements come in source order without overlapping, and every
/// expression and statement node covers a range of the source that holds
/// the ranges of the nodes below it (unless the tree holds a list
/// destructuring declaration without a value, whose range reaches to the
/// token after it). A source of one value, one name, or two values or
/// names joined by a binary operator reads as one statement of exactly that
/// expression; a source that starts with a character the language does not
/// know fails with "Unexpected Character" at that character.
pub fn parse(source: &str) -> (r: Result<Vec<Statement>, Diagnostic>)
    requires
        parsable(bytes_of(source)),
    ensures
        r matches Err(d) ==> d.line == line_at(bytes_of(source), d.span.start as int)
            && d.span.start <= d.span.end <= bytes_of(source).len() && syntax_error_title(
            d.title@,
        ),
        lone_literal_source(bytes_of(source)) ==> (r matches Ok(statements) && statements@.len()
            == 1 && (statements@[0].stmt matches Stmt::Expression { expression } && literal_of(
            bytes_of(source),
            next_token(bytes_of(source), initial_state()),
            expression,
        ))),
        next_token(bytes_of(source), initial_state()).ttype == TokenType::Unknown ==> (r matches Err(
            d,
        ) && d.title@ == "Unexpected Character"@ && d.message@ == "Unknown character '"@
            + vstd::utf8::decode_utf8(
            bytes_of(source).subrange(
                next_token(bytes_of(source), initial_state()).start as int,
                next_token(bytes_of(source), initial_state()).end as int,
            ),
        ) + "'"@ && d.span == Span::spec_from(next_token(bytes_of(source), initial_state()))),
        next_token(bytes_of(source), initial_state()).ttype == TokenType::Let && simple_declaration(
            bytes_of(source),
            after(bytes_of(source), initial_state()),
        ) ==> (r matches Ok(statements) && statements@.len() == 1 && simple_declaration_of(
            bytes_of(source),
            after(bytes_of(source), initial_state()),
            statements@[0],
        )),
        assignment_source(
            bytes_of(source),
            next_token(bytes_of(source), initial_state()),
            after(bytes_of(source), initial_state()),
        ) ==> (r matches Ok(statements) && statements@.len() == 1 && (statements@[0].stmt matches Stmt::Expression {
            expression,
        } && assignment_of(
            bytes_of(source),
            next_token(bytes_of(source), initial_state()),
            after(bytes_of(source), initial_state()),
            expression,
        ))),
        next_token(bytes_of(source), initial_state()).ttype == TokenType::LeftParen && unclosed_bracket(bytes_of(source), after(bytes_of(source), initial_state())) ==> r is Err,
        next_token(bytes_of(source), initial_state()).ttype == TokenType::LeftParen && bracketed_name(bytes_of(source), after(bytes_of(source), initial_state())) && next_type(bytes_of(source), after(bytes_of(source), after(bytes_of(source), after(bytes_of(source), initial_state())))) == TokenType::EndOfFile ==> (r matches Ok(statements) && statements@.len() == 1 && (statements@[0].stmt matches Stmt::Expression { expression } && bracketed_name_of(bytes_of(source), after(bytes_of(source), initial_state()), expression))),
        next_token(bytes_of(source), initial_state()).ttype == TokenType::From && aliased_import(bytes_of(source), after(bytes_of(source), initial_state())) ==> (r matches Ok(statements) && statements@.len() == 1 && aliased_import_of(bytes_of(source), after(bytes_of(source), initial_state()), statements@[0])),
        lone_variable_source(bytes_of(source)) ==> (r matches Ok(statements) && statements@.len()
            == 1 && (statements@[0].stmt matches Stmt::Expression { expression } && variable_of(
            bytes_of(source),
            next_token(bytes_of(source), initial_state()),
            expression,
        ))),
        operand_pair_source(bytes_of(source)) ==> (r matches Ok(statements) && statements@.len()
            == 1 && (statements@[0].stmt matches Stmt::Expression { expression } && operand_pair_of(
            bytes_of(source),
            next_token(bytes_of(source), initial_state()),
            next_token(bytes_of(source), after(bytes_of(source), initial_state())),
            next_token(bytes_of(source), after(bytes_of(source), after(bytes_of(source), initial_state()))),
            expression,
        ))),
        r matches Ok(statements) ==> (stmts_plain(statements@) ==> stmts_between(
            statements@,
            0,
            bytes_of(source).len() as int,
        ) && stmts_in_order(statements@)),
{
    reveal(stmt_read);
    reveal(keyword_read);
    let mut parser = Parser::new(source);
    let mut statements: Vec<Statement> = Vec::new();
    let ghost mut hi: int = 0;
    let ghost b = bytes_of(source);
    let ghost lone = lone_literal_source(b);
    let ghost pair = operand_pair_source(b);
    let ghost lone_variable = lone_variable_source(b);
    let ghost unknown_first = next_token(b, initial_state()).ttype == TokenType::Unknown;
    let ghost unclosed = next_token(b, initial_state()).ttype == TokenType::LeftParen && unclosed_bracket(b, after(b, initial_state()));
    let ghost bracketed = next_token(b, initial_state()).ttype == TokenType::LeftParen && bracketed_name(b, after(b, initial_state())) && next_type(b, after(b, after(b, after(b, initial_state())))) == TokenType::EndOfFile;
    let ghost import = next_token(b, initial_state()).ttype == TokenType::From && aliased_import(b, after(b, initial_state()));
    let ghost assignment = assignment_source(b, next_token(b, initial_state()), after(b, initial_state()));
    let ghost declaration = next_token(b, initial_state()).ttype == TokenType::Let && simple_declaration(b, after(b, initial_state()));
    let ghost t0 = next_token(b, initial_state());
    let ghost st = after(b, initial_state());
    loop
        invariant
            parser.inv(),
            parser.text == source,
            b == bytes_of(source),
            lone == lone_literal_source(b),
            lone ==> (statements@.len() == 0 && parser.current == next_token(b, initial_state())
                && parser.tokeniser.state() == after(b, initial_state()) && parser.previous
                == Token::spec_eof()) || (statements@.len() == 1 && parser.current.ttype
                == TokenType::EndOfFile && (statements@[0].stmt matches Stmt::Expression {
                expression } && literal_of(b, next_token(b, initial_state()), expression))),
            pair == operand_pair_source(b),
            lone_variable == lone_variable_source(b),
            unknown_first == (next_token(b, initial_state()).ttype == TokenType::Unknown),
            assignment == assignment_source(b, next_token(b, initial_state()), after(b, initial_state())),
            import == (next_token(b, initial_state()).ttype == TokenType::From && aliased_import(b, after(b, initial_state()))),
            import ==> (statements@.len() == 0 && parser.current == next_token(b, initial_state()) && parser.tokeniser.state() == after(b, initial_state()) && parser.previous == Token::spec_eof()) || (statements@.len() == 1 && parser.current.ttype == TokenType::EndOfFile && aliased_import_of(b, after(b, initial_state()), statements@[0])),
            unclosed == (next_token(b, initial_state()).ttype == TokenType::LeftParen && unclosed_bracket(b, after(b, initial_state()))),
            unclosed ==> statements@.len() == 0 && parser.current == next_token(b, initial_state()) && parser.tokeniser.state() == after(b, initial_state()) && parser.previous == Token::spec_eof(),
            bracketed == (next_token(b, initial_state()).ttype == TokenType::LeftParen && bracketed_name(b, after(b, initial_state())) && next_type(b, after(b, after(b, after(b, initial_state())))) == TokenType::EndOfFile),
            bracketed ==> (statements@.len() == 0 && parser.current == next_token(b, initial_state()) && parser.tokeniser.state() == after(b, initial_state()) && parser.previous == Token::spec_eof()) || (statements@.len() == 1 && parser.current.ttype == TokenType::EndOfFile && (statements@[0].stmt matches Stmt::Expression { expression } && bracketed_name_of(b, after(b, initial_state()), expression))),
            assignment ==> (statements@.len() == 0 && parser.current == next_token(b, initial_state()) && parser.tokeniser.state() == after(b, initial_state()) && parser.previous == Token::spec_eof()) || (statements@.len() == 1 && parser.current.ttype == TokenType::EndOfFile && (statements@[0].stmt matches Stmt::Expression { expression } && assignment_of(b, next_token(b, initial_state()), after(b, initial_state()), expression))),
            declaration == (next_token(b, initial_state()).ttype == TokenType::Let && simple_declaration(b, after(b, initial_state()))),
            declaration ==> (statements@.len() == 0 && parser.current == next_token(b, initial_state()) && parser.tokeniser.state() == after(b, initial_state()) && parser.previous == Token::spec_eof()) || (statements@.len() == 1 && parser.current.ttype == TokenType::EndOfFile && simple_declaration_of(b, after(b, initial_state()), statements@[0])),
            unknown_first ==> statements@.len() == 0 && parser.current == next_token(b, initial_state()) && parser.tokeniser.state() == after(b, initial_state()) && parser.previous == Token::spec_eof(),
            lone_variable ==> (statements@.len() == 0 && parser.current == t0 && parser.tokeniser.state()
                == st && parser.previous == Token::spec_eof()) || (statements@.len() == 1
                && parser.current.ttype == TokenType::EndOfFile && (statements@[0].stmt matches Stmt::Expression {
                expression } && variable_of(b, t0, expression))),
            t0 == next_token(b, initial_state()),
            st == after(b, initial_state()),
            pair ==> (statements@.len() == 0 && parser.current == t0 && parser.tokeniser.state()
                == st && parser.previous == Token::spec_eof()) || (statements@.len() == 1
                && parser.current.ttype == TokenType::EndOfFile && (statements@[0].stmt matches Stmt::Expression {
                expression } && operand_pair_of(b, t0, next_token(b, st), next_token(b, after(b, st)), expression))),
            stmts_plain(statements@) ==> stmts_between(statements@, 0, hi) && stmts_in_order(
                statements@,
            ),
            0 <= hi <= parser.floor(),
        ensures
            !unknown_first,
            !unclosed,
            import ==> statements@.len() == 1 && aliased_import_of(b, after(b, initial_state()), statements@[0]),
            bracketed ==> statements@.len() == 1 && (statements@[0].stmt matches Stmt::Expression { expression } && bracketed_name_of(b, after(b, initial_state()), expression)),
            assignment ==> statements@.len() == 1 && (statements@[0].stmt matches Stmt::Expression { expression } && assignment_of(b, next_token(b, initial_state()), after(b, initial_state()), expression)),
            declaration ==> statements@.len() == 1 && simple_declaration_of(b, after(b, initial_state()), statements@[0]),
            parser.inv(),
            parser.text == source,
            b == bytes_of(source),
            lone == lone_literal_source(b),
            lone ==> statements@.len() == 1 && (statements@[0].stmt matches Stmt::Expression {
                expression } && literal_of(b, next_token(b, initial_state()), expression)),
            lone_variable ==> statements@.len() == 1 && (statements@[0].stmt matches Stmt::Expression {
                expression } && variable_of(b, t0, expression)),
            pair ==> statements@.len() == 1 && (statements@[0].stmt matches Stmt::Expression {
                expression } && operand_pair_of(b, t0, next_token(b, st), next_token(b, after(b, st)), expression)),
            stmts_plain(statements@) ==> stmts_between(statements@, 0, hi) && stmts_in_order(
                statements@,
            ),
            0 <= hi <= parser.floor(),
        decreases parser.measure(),
    {
        reveal(stmt_read);
        reveal(keyword_read);
        if parser.at_end() {
            break ;
        }
        match parser.statement() {
            Ok(stmt) => {
                proof {
                    let s0 = statements@;
                    lemma_stmts_between_push(s0, stmt, 0, parser.floor());
                    if stmts_plain(s0) && stmt_plain(stmt) {
                        lemma_stmts_between_widen(s0, 0, hi, 0, parser.floor());
                        let s1 = s0.push(stmt);
                        assert forall|i: int, j: int| 0 <= i < j < s1.len() implies s1[i].span.end
                            <= s1[j].span.start by {
                            if j == s0.len() {
                                lemma_stmts_between_index(s0, 0, hi, i);
                                assert(s1[i] == s0[i]);
                            } else {
                                assert(s1[i] == s0[i] && s1[j] == s0[j]);
                            }
                        }
                    }
                    hi = parser.floor();
                }
                statements.push(stmt);
            },
            Err(Error::EmptyStatement) => break ,
            Err(err) => {
                let token = parser.error_token();
                return Err(err.get_diagnostic(source, token));
            },
        }
    }
    proof {
        assert(parser.floor() <= bytes_of(source).len());
        if stmts_plain(statements@) {
            lemma_stmts_between_widen(statements@, 0, hi, 0, bytes_of(source).len() as int);
        }
    }
    Ok(statements)
}

/// Parses a source as a type annotation.
pub fn parse_type(source: &str) -> (r: Result<TypeExpression, Diagnostic>)
    requires
        parsable(bytes_of(source)),
    ensures
        r matches Err(d) ==> d.line == line_at(bytes_of(source), d.span.start as int)
            && d.span.start <= d.span.end <= bytes_of(source).len() && syntax_error_title(
            d.title@,
        ),
        ({
            let b = bytes_of(source);
            let first = next_token(b, initial_state());
            type_name_ok(first.ttype, next_type(b, after(b, initial_state()))) ==> (r matches Ok(
                t,
            ) && (t.type_ matches Type::Named(n) && bytes_of(n) == b.subrange(
                first.start as int,
                first.end as int,
            )))
        }),
        ({
            let b = bytes_of(source);
            let st = after(b, initial_state());
            applied_type(b, next_token(b, initial_state()), st) ==> (r matches Ok(t)
                && applied_type_of(b, next_token(b, initial_state()), next_token(b, after(b, st)), t))
        }),
{
    let mut parser = Parser::new(source);
    match parser.types() {
        Ok(t) => Ok(t),
        Err(err) => {
            let token = parser.error_token();
            if err == Error::EmptyStatement {
                return Err(Error::ExpectedType.get_diagnostic(source, token));
            }
            Err(err.get_diagnostic(source, token))
        },
    }
}

/// Whether `parse` and `parse_type` can run over the source (see
/// `parsable`).
pub fn is_parsable(source: &str) -> (r: bool)
    ensures
        r == parsable(bytes_of(source)),
{
    let b = source.as_bytes();
    if b.len() >= 0x4000_0000 || !is_lexable(source) {
        return false;
    }
    let mut i: usize = 0;
    let mut lines: usize = 1;
    while i < b.len()
        invariant
            b@ == bytes_of(source),
            i <= b@.len(),
            1 <= lines <= LineNumber::MAX,
            lines == 1 + count_newlines(b@, 0, i as int),
        decreases b@.len() - i,
    {
        proof {
            lemma_count_newlines_step(b@, 0, i as int);
        }
        if b[i] == 10 {
            if lines == 65535 {
                proof {
                    lemma_count_newlines_split(b@, 0, i as int + 1, b@.len() as int);
                    lemma_count_newlines(b@, i as int + 1, b@.len() as int);
                }
                return false;
            }
            lines = lines + 1;
        }
        i = i + 1;
    }
    true
}

/// How tightly the infix operators bind, from the tightest: `*` and `/`,
/// then `+` and `-`, the comparisons, `==` and `!=`, `??`, `and`, `or`
/// and `>>`; the operators of each group bind alike. So `a + b * c` is
/// `a + (b * c)` and `a - b / c` is `a - (b / c)`.
pub proof fn law_operator_precedence(t: TokenType, u: TokenType)
    ensures
        (t == TokenType::Star || t == TokenType::Slash) && (u == TokenType::Plus || u
            == TokenType::Minus) ==> Precedence::spec_from(t).spec_level() > Precedence::spec_from(
            u,
        ).spec_level(),
        t == TokenType::Star && u == TokenType::Slash ==> Precedence::spec_from(t)
            == Precedence::spec_from(u),
        t == TokenType::Plus && u == TokenType::Minus ==> Precedence::spec_from(t)
            == Precedence::spec_from(u),
        (t == TokenType::Plus || t == TokenType::Minus) && (u == TokenType::Less || u
            == TokenType::Greater || u == TokenType::LessEqual || u == TokenType::GreaterEqual)
            ==> Precedence::spec_from(t).spec_level() > Precedence::spec_from(u).spec_level(),
        (t == TokenType::Less || t == TokenType::Greater || t == TokenType::LessEqual || t
            == TokenType::GreaterEqual) && (u == TokenType::EqualEqual || u == TokenType::BangEqual)
            ==> Precedence::spec_from(t).spec_level() > Precedence::spec_from(u).spec_level(),
        (t == TokenType::EqualEqual || t == TokenType::BangEqual) && u == TokenType::QuestionQuestion
            ==> Precedence::spec_from(t).spec_level() > Precedence::spec_from(u).spec_level(),
        t == TokenType::QuestionQuestion && u == TokenType::And ==> Precedence::spec_from(
            t,
        ).spec_level() > Precedence::spec_from(u).spec_level(),
        t == TokenType::And && u == TokenType::Or ==> Precedence::spec_from(t).spec_level()
            > Precedence::spec_from(u).spec_level(),
        t == TokenType::Or && u == TokenType::RightRight ==> Precedence::spec_from(t).spec_level()
            > Precedence::spec_from(u).spec_level(),
        t == TokenType::RightRight ==> Precedence::spec_from(t).spec_level()
            > Precedence::Assignment.spec_level(),
{
}

} // verus!

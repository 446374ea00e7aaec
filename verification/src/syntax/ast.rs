//! The syntax tree of the current front end. Every node carries the span of
//! the source that it was parsed from.
use crate::syntax::tokens::{CharacterPosition, LineNumber, Token, TokenType};
use crate::syntax::tokens::count_newlines;
use crate::text::bytes_of;
use vstd::prelude::*;

verus! {

/// A range of bytes of the source.
#[derive(Copy, Clone, Debug, PartialEq, Eq, Structural)]
pub struct Span {
    pub start: CharacterPosition,
    pub end: CharacterPosition,
}

/// The line that the byte at `position` is on, counting a newline at that
/// position itself (a position past the end is on the last line).
pub open spec fn line_at(b: Seq<u8>, position: int) -> int {
    1 + count_newlines(b, 0, if position < b.len() { position + 1 } else { b.len() as int })
}

/// The line that a range ending (exclusively) at `position` ends on.
pub open spec fn line_before(b: Seq<u8>, position: int) -> int {
    1 + count_newlines(b, 0, if position < b.len() { position } else { b.len() as int })
}

/// A source whose lines can all be numbered by a `LineNumber`.
pub open spec fn lines_fit(b: Seq<u8>) -> bool {
    1 + count_newlines(b, 0, b.len() as int) <= LineNumber::MAX
}

impl Span {
    pub open spec fn spec_from(token: Token) -> Span {
        Span { start: token.start, end: token.end }
    }

    /// The span that a token covers.
    pub fn from(token: Token) -> (r: Span)
        ensures
            r == Span::spec_from(token),
    {
        Span { start: token.start, end: token.end }
    }

    /// The line the span starts on.
    pub fn get_line_number(&self, source: &str) -> (r: LineNumber)
        requires
            lines_fit(bytes_of(source)),
        ensures
            r == line_at(bytes_of(source), self.start as int),
    {
        let bytes = source.as_bytes();
        let ghost b = bytes@;
        let mut line: LineNumber = 1;
        let mut i: usize = 0;
        proof {
            crate::syntax::tokens::lemma_count_newlines(b, 0, b.len() as int);
        }
        while i < bytes.len()
            invariant
                b == bytes@,
                b == bytes_of(source),
                i <= b.len(),
                lines_fit(b),
                i <= self.start,
                line == 1 + count_newlines(b, 0, i as int),
            decreases b.len() - i,
        {
            proof {
                crate::syntax::tokens::lemma_count_newlines_step(b, 0, i as int);
                crate::syntax::tokens::lemma_count_newlines_split(b, 0, i + 1, b.len() as int);
                crate::syntax::tokens::lemma_count_newlines(b, i + 1, b.len() as int);
            }
            if bytes[i] == 10 {
                line = line + 1;
            }
            if i == self.start as usize {
                return line;
            }
            i = i + 1;
        }
        line
    }

    /// The line the span ends on.
    pub fn get_line_number_end(&self, source: &str) -> (r: LineNumber)
        requires
            lines_fit(bytes_of(source)),
        ensures
            r == line_before(bytes_of(source), self.end as int),
    {
        let bytes = source.as_bytes();
        let ghost b = bytes@;
        let mut line: LineNumber = 1;
        let mut i: usize = 0;
        while i < bytes.len()
            invariant
                b == bytes@,
                b == bytes_of(source),
                i <= b.len(),
                lines_fit(b),
                i <= self.end,
                line == 1 + count_newlines(b, 0, i as int),
            decreases b.len() - i,
        {
            if i == self.end as usize {
                return line;
            }
            proof {
                crate::syntax::tokens::lemma_count_newlines_step(b, 0, i as int);
                crate::syntax::tokens::lemma_count_newlines_split(b, 0, i + 1, b.len() as int);
                crate::syntax::tokens::lemma_count_newlines(b, i + 1, b.len() as int);
            }
            if bytes[i] == 10 {
                line = line + 1;
            }
            i = i + 1;
        }
        line
    }
}

/// The span from the start of `a` to the end of `b`.
pub open spec fn spec_join(a: Span, b: Span) -> Span {
    Span { start: a.start, end: b.end }
}

pub fn join(a: Span, b: Span) -> (r: Span)
    ensures
        r == spec_join(a, b),
{
    Span { start: a.start, end: b.end }
}

#[derive(Debug)]
pub struct Expression<'s> {
    pub expr: Expr<'s>,
    pub span: Span,
}

#[derive(Debug)]
pub enum Expr<'s> {
    Assignment { identifier: &'s str, expression: Box<Expression<'s>> },
    Binary { operator: BinaryOperator, left: Box<Expression<'s>>, right: Box<Expression<'s>> },
    Call { expression: Box<Expression<'s>>, arguments: Vec<Expression<'s>> },
    Comment { expression: Box<Expression<'s>>, text: &'s str },
    Dictionary { items: Vec<(Expression<'s>, Expression<'s>)> },
    FormatString { strings: Vec<String>, expressions: Vec<Expression<'s>> },
    Function {
        parameters: Vec<Parameter<'s>>,
        return_type: Option<TypeExpression<'s>>,
        body: Box<Statement<'s>>,
        name: Option<&'s str>,
    },
    Group { expression: Box<Expression<'s>> },
    Index { expression: Box<Expression<'s>>, index: Box<Expression<'s>> },
    IndexAssignment {
        expression: Box<Expression<'s>>,
        index: Box<Expression<'s>>,
        value: Box<Expression<'s>>,
        assignment_operator: Option<AssignmentOperator>,
    },
    List { items: Vec<Expression<'s>> },
    Literal { type_: LiteralType, value: &'s str },
    ModuleAccess { module: &'s str, item: &'s str },
    Unary { operator: UnaryOperator, expression: Box<Expression<'s>> },
    Variable { name: &'s str },
}

/// An expression whose value is known without running the program: no
/// variable, call, module item or pipeline in it.
pub open spec fn constant_expr(e: Expr) -> bool
    decreases e, 0nat,
{
    match e {
        Expr::Call { .. } | Expr::Variable { .. } | Expr::ModuleAccess { .. } => false,
        Expr::Function { .. } | Expr::Literal { .. } => true,
        Expr::Group { expression } => constant_expr(expression.expr),
        Expr::Unary { expression, .. } => constant_expr(expression.expr),
        Expr::Assignment { expression, .. } => constant_expr(expression.expr),
        Expr::Comment { expression, .. } => constant_expr(expression.expr),
        Expr::Binary { left, right, operator } => constant_expr(left.expr) && constant_expr(
            right.expr,
        ) && operator != BinaryOperator::Pipeline,
        Expr::List { items } => all_constant(items@),
        Expr::Index { expression, index } => constant_expr(expression.expr) && constant_expr(
            index.expr,
        ),
        Expr::IndexAssignment { value, .. } => constant_expr(value.expr),
        Expr::FormatString { expressions, .. } => all_constant(expressions@),
        Expr::Dictionary { items } => all_entries_constant(items@),
    }
}

/// Every expression of the list is constant.
pub open spec fn all_constant(s: Seq<Expression>) -> bool
    decreases s, 0nat,
{
    if s.len() == 0 {
        true
    } else {
        all_constant(s.subrange(0, s.len() - 1)) && constant_expr(s[s.len() - 1].expr)
    }
}

/// Every key and value of the entries is constant.
pub open spec fn all_entries_constant(s: Seq<(Expression, Expression)>) -> bool
    decreases s, 0nat,
{
    if s.len() == 0 {
        true
    } else {
        all_entries_constant(s.subrange(0, s.len() - 1)) && constant_expr(s[s.len() - 1].0.expr)
            && constant_expr(s[s.len() - 1].1.expr)
    }
}

fn all_items_constant(items: &Vec<Expression>) -> (r: bool)
    ensures
        r == all_constant(items@),
    decreases items, 1nat,
{
    let mut i: usize = 0;
    let mut all = true;
    while i < items.len()
        invariant
            i <= items@.len(),
            all == all_constant(items@.subrange(0, i as int)),
        decreases items@.len() - i,
    {
        assert(items@.subrange(0, i + 1).subrange(0, i as int) =~= items@.subrange(0, i as int));
        let c = items[i].expr.is_constant();
        all = all && c;
        i = i + 1;
    }
    assert(items@.subrange(0, items@.len() as int) =~= items@);
    all
}

fn all_entries_are_constant(items: &Vec<(Expression, Expression)>) -> (r: bool)
    ensures
        r == all_entries_constant(items@),
    decreases items, 1nat,
{
    let mut i: usize = 0;
    let mut all = true;
    while i < items.len()
        invariant
            i <= items@.len(),
            all == all_entries_constant(items@.subrange(0, i as int)),
        decreases items@.len() - i,
    {
        assert(items@.subrange(0, i + 1).subrange(0, i as int) =~= items@.subrange(0, i as int));
        let entry = &items[i];
        let key = entry.0.expr.is_constant();
        let value = entry.1.expr.is_constant();
        all = all && key && value;
        i = i + 1;
    }
    assert(items@.subrange(0, items@.len() as int) =~= items@);
    all
}

impl<'s> Expr<'s> {
    /// Whether the expression's value is known without running the program.
    pub fn is_constant(&self) -> (r: bool)
        ensures
            r == constant_expr(*self),
        decreases self, 0nat,
    {
        match self {
            Expr::Call { .. } | Expr::Variable { .. } | Expr::ModuleAccess { .. } => false,
            Expr::Function { .. } | Expr::Literal { .. } => true,
            Expr::Group { expression } => expression.expr.is_constant(),
            Expr::Unary { expression, .. } => expression.expr.is_constant(),
            Expr::Assignment { expression, .. } => expression.expr.is_constant(),
            Expr::Comment { expression, .. } => expression.expr.is_constant(),
            Expr::Binary { left, right, operator } => {
                left.expr.is_constant() && right.expr.is_constant() && *operator
                    != BinaryOperator::Pipeline
            },
            Expr::List { items } => all_items_constant(items),
            Expr::Index { expression, index } => expression.expr.is_constant()
                && index.expr.is_constant(),
            Expr::IndexAssignment { value, .. } => value.expr.is_constant(),
            Expr::FormatString { expressions, .. } => all_items_constant(expressions),
            Expr::Dictionary { items } => all_entries_are_constant(items),
        }
    }
}

#[derive(Copy, Clone, Debug, PartialEq, Eq, Structural)]
pub enum LiteralType {
    String,
    Number,
    True,
    False,
    Null,
}

impl LiteralType {
    pub open spec fn spec_from(token_type: TokenType) -> LiteralType {
        match token_type {
            TokenType::String => LiteralType::String,
            TokenType::Number => LiteralType::Number,
            TokenType::True => LiteralType::True,
            TokenType::False => LiteralType::False,
            _ => LiteralType::Null,
        }
    }

    /// The literal kind of a value token.
    pub fn from(token_type: TokenType) -> (r: LiteralType)
        requires
            token_type == TokenType::String || token_type == TokenType::Number || token_type
                == TokenType::True || token_type == TokenType::False || token_type
                == TokenType::Null,
        ensures
            r == LiteralType::spec_from(token_type),
    {
        match token_type {
            TokenType::String => LiteralType::String,
            TokenType::Number => LiteralType::Number,
            TokenType::True => LiteralType::True,
            TokenType::False => LiteralType::False,
            _ => LiteralType::Null,
        }
    }

    /// The name of the literal's type.
    pub open spec fn spec_name(&self) -> Seq<char> {
        match self {
            Self::String => "string"@,
            Self::Number => "number"@,
            Self::True => "true"@,
            Self::False => "false"@,
            Self::Null => "null"@,
        }
    }

    /// The name of the literal's type.
    pub fn name(&self) -> (r: &'static str)
        ensures
            r@ == self.spec_name(),
    {
        match self {
            Self::String => "string",
            Self::Number => "number",
            Self::True => "true",
            Self::False => "false",
            Self::Null => "null",
        }
    }
}

#[derive(Copy, Clone, Debug, PartialEq, Eq, Structural)]
pub enum BinaryOperator {
    Plus,
    Minus,
    Multiply,
    Divide,
    NotEqual,
    Equal,
    Greater,
    GreaterEqual,
    Less,
    LessEqual,
    And,
    Or,
    Nullish,
    Pipeline,
}

pub open spec fn is_binary_operator_token(t: TokenType) -> bool {
    t == TokenType::Plus || t == TokenType::Minus || t == TokenType::Star || t
        == TokenType::Slash || t == TokenType::BangEqual || t == TokenType::EqualEqual || t
        == TokenType::Greater || t == TokenType::GreaterEqual || t == TokenType::Less || t
        == TokenType::LessEqual || t == TokenType::And || t == TokenType::Or || t
        == TokenType::QuestionQuestion || t == TokenType::RightRight
}

impl BinaryOperator {
    pub open spec fn spec_from(t: TokenType) -> BinaryOperator {
        match t {
            TokenType::Plus => BinaryOperator::Plus,
            TokenType::Minus => BinaryOperator::Minus,
            TokenType::Star => BinaryOperator::Multiply,
            TokenType::Slash => BinaryOperator::Divide,
            TokenType::BangEqual => BinaryOperator::NotEqual,
            TokenType::EqualEqual => BinaryOperator::Equal,
            TokenType::Greater => BinaryOperator::Greater,
            TokenType::GreaterEqual => BinaryOperator::GreaterEqual,
            TokenType::Less => BinaryOperator::Less,
            TokenType::LessEqual => BinaryOperator::LessEqual,
            TokenType::And => BinaryOperator::And,
            TokenType::Or => BinaryOperator::Or,
            TokenType::QuestionQuestion => BinaryOperator::Nullish,
            _ => BinaryOperator::Pipeline,
        }
    }

    /// The operator that a token stands for.
    pub fn from(t: TokenType) -> (r: BinaryOperator)
        requires
            is_binary_operator_token(t),
        ensures
            r == BinaryOperator::spec_from(t),
    {
        match t {
            TokenType::Plus => BinaryOperator::Plus,
            TokenType::Minus => BinaryOperator::Minus,
            TokenType::Star => BinaryOperator::Multiply,
            TokenType::Slash => BinaryOperator::Divide,
            TokenType::BangEqual => BinaryOperator::NotEqual,
            TokenType::EqualEqual => BinaryOperator::Equal,
            TokenType::Greater => BinaryOperator::Greater,
            TokenType::GreaterEqual => BinaryOperator::GreaterEqual,
            TokenType::Less => BinaryOperator::Less,
            TokenType::LessEqual => BinaryOperator::LessEqual,
            TokenType::And => BinaryOperator::And,
            TokenType::Or => BinaryOperator::Or,
            TokenType::QuestionQuestion => BinaryOperator::Nullish,
            _ => BinaryOperator::Pipeline,
        }
    }

    /// How the operator is written: `and` and `or` as words.
    pub open spec fn spec_text(&self) -> Seq<char> {
        match self {
            Self::Plus => "+"@,
            Self::Minus => "-"@,
            Self::Multiply => "*"@,
            Self::Divide => "/"@,
            Self::NotEqual => "!="@,
            Self::Equal => "=="@,
            Self::Greater => ">"@,
            Self::GreaterEqual => ">="@,
            Self::Less => "<"@,
            Self::LessEqual => "<="@,
            Self::And => "and"@,
            Self::Or => "or"@,
            Self::Nullish => "??"@,
            Self::Pipeline => ">>"@,
        }
    }

    pub fn text(&self) -> (r: &'static str)
        ensures
            r@ == self.spec_text(),
    {
        match self {
            Self::Plus => "+",
            Self::Minus => "-",
            Self::Multiply => "*",
            Self::Divide => "/",
            Self::NotEqual => "!=",
            Self::Equal => "==",
            Self::Greater => ">",
            Self::GreaterEqual => ">=",
            Self::Less => "<",
            Self::LessEqual => "<=",
            Self::And => "and",
            Self::Or => "or",
            Self::Nullish => "??",
            Self::Pipeline => ">>",
        }
    }
}

#[derive(Copy, Clone, Debug, PartialEq, Eq, Structural)]
pub enum AssignmentOperator {
    Plus,
    Minus,
    Multiply,
    Divide,
}

impl AssignmentOperator {
    /// The compound assignment that stands for a binary operator, if any.
    pub fn from_binary(operator: &BinaryOperator) -> (r: Option<AssignmentOperator>)
        ensures
            r == match *operator {
                BinaryOperator::Plus => Some(AssignmentOperator::Plus),
                BinaryOperator::Minus => Some(AssignmentOperator::Minus),
                BinaryOperator::Multiply => Some(AssignmentOperator::Multiply),
                BinaryOperator::Divide => Some(AssignmentOperator::Divide),
                _ => None,
            },
    {
        match operator {
            BinaryOperator::Plus => Some(Self::Plus),
            BinaryOperator::Minus => Some(Self::Minus),
            BinaryOperator::Multiply => Some(Self::Multiply),
            BinaryOperator::Divide => Some(Self::Divide),
            _ => None,
        }
    }

    /// The compound assignment that a token stands for, if any.
    pub fn from_token(operator: TokenType) -> (r: Option<AssignmentOperator>)
        ensures
            r == match operator {
                TokenType::PlusEqual => Some(AssignmentOperator::Plus),
                TokenType::MinusEqual => Some(AssignmentOperator::Minus),
                TokenType::StarEqual => Some(AssignmentOperator::Multiply),
                TokenType::SlashEqual => Some(AssignmentOperator::Divide),
                _ => None,
            },
    {
        match operator {
            TokenType::PlusEqual => Some(Self::Plus),
            TokenType::MinusEqual => Some(Self::Minus),
            TokenType::StarEqual => Some(Self::Multiply),
            TokenType::SlashEqual => Some(Self::Divide),
            _ => None,
        }
    }

    pub open spec fn spec_token_to_binary(token_type: TokenType) -> BinaryOperator {
        match token_type {
            TokenType::PlusEqual => BinaryOperator::Plus,
            TokenType::MinusEqual => BinaryOperator::Minus,
            TokenType::StarEqual => BinaryOperator::Multiply,
            _ => BinaryOperator::Divide,
        }
    }

    /// The binary operator that a compound assignment token applies.
    pub fn token_to_binary(token_type: TokenType) -> (r: BinaryOperator)
        requires
            token_type.is_assignment_operator(),
        ensures
            r == AssignmentOperator::spec_token_to_binary(token_type),
    {
        match token_type {
            TokenType::PlusEqual => BinaryOperator::Plus,
            TokenType::MinusEqual => BinaryOperator::Minus,
            TokenType::StarEqual => BinaryOperator::Multiply,
            _ => BinaryOperator::Divide,
        }
    }

    pub open spec fn spec_text(&self) -> Seq<char> {
        match self {
            Self::Plus => "+="@,
            Self::Minus => "-="@,
            Self::Multiply => "*="@,
            Self::Divide => "/="@,
        }
    }

    pub fn text(&self) -> (r: &'static str)
        ensures
            r@ == self.spec_text(),
    {
        match self {
            Self::Plus => "+=",
            Self::Minus => "-=",
            Self::Multiply => "*=",
            Self::Divide => "/=",
        }
    }
}

#[derive(Copy, Clone, Debug, PartialEq, Eq, Structural)]
pub enum UnaryOperator {
    Not,
    Minus,
}

impl UnaryOperator {
    pub open spec fn spec_from(t: TokenType) -> UnaryOperator {
        if t == TokenType::Bang {
            UnaryOperator::Not
        } else {
            UnaryOperator::Minus
        }
    }

    pub fn from(t: TokenType) -> (r: UnaryOperator)
        requires
            t == TokenType::Bang || t == TokenType::Minus,
        ensures
            r == UnaryOperator::spec_from(t),
    {
        if t == TokenType::Bang {
            UnaryOperator::Not
        } else {
            UnaryOperator::Minus
        }
    }

    pub open spec fn spec_text(&self) -> Seq<char> {
        match self {
            Self::Not => "!"@,
            Self::Minus => "-"@,
        }
    }

    pub fn text(&self) -> (r: &'static str)
        ensures
            r@ == self.spec_text(),
    {
        match self {
            Self::Not => "!",
            Self::Minus => "-",
        }
    }
}

#[derive(Debug)]
pub struct Parameter<'s> {
    pub name: &'s str,
    pub span: Span,
    pub type_: Option<TypeExpression<'s>>,
}

#[derive(Debug)]
pub struct Statement<'s> {
    pub stmt: Stmt<'s>,
    pub span: Span,
}

#[derive(Debug)]
pub enum Stmt<'s> {
    Block { body: Vec<Statement<'s>> },
    Declaration {
        identifier: DeclarationIdentifier<'s>,
        type_: Option<TypeExpression<'s>>,
        expression: Option<Expression<'s>>,
    },
    Expression { expression: Expression<'s> },
    If {
        condition: Expression<'s>,
        then: Box<Statement<'s>>,
        otherwise: Option<Box<Statement<'s>>>,
    },
    Import { module: &'s str, items: Vec<ImportItem<'s>> },
    Return { expression: Option<Expression<'s>> },
    While { condition: Expression<'s>, body: Box<Statement<'s>> },
    Comment { text: &'s str },
}

/// An item of an import, or of a destructuring declaration: a name with an
/// optional alias.
#[derive(Copy, Clone, Debug)]
pub struct ImportItem<'s> {
    pub name: &'s str,
    pub span: Span,
    pub alias: Option<&'s str>,
}

/// What a declaration binds: one variable, a list of them taken in order, or
/// named items.
#[derive(Debug)]
pub enum DeclarationIdentifier<'s> {
    Variable(&'s str),
    Ordered(Vec<&'s str>),
    Named(Vec<ImportItem<'s>>),
}

#[derive(Debug)]
pub struct TypeExpression<'s> {
    pub type_: Type<'s>,
    pub span: Span,
}

#[derive(Debug)]
pub enum Type<'s> {
    Named(&'s str),
    Parameter(&'s str, Vec<TypeExpression<'s>>),
    Union(Box<TypeExpression<'s>>, Box<TypeExpression<'s>>),
    Function(Box<TypeExpression<'s>>, Vec<TypeExpression<'s>>),
    Optional(Box<TypeExpression<'s>>),
    Group(Box<TypeExpression<'s>>),
    List(Box<TypeExpression<'s>>),
    WithGeneric(Vec<&'s str>, Box<TypeExpression<'s>>),
}

// ---------------------------------------------------------------------
// Where the nodes of a tree stand in the source
// ---------------------------------------------------------------------

/// The span starts no earlier than `lo`, no later than it ends, and ends
/// no later than `hi`.
pub open spec fn span_between(s: Span, lo: int, hi: int) -> bool {
    lo <= s.start && s.start <= s.end && s.end <= hi
}

/// Every expression and statement node of `e` covers a range that starts
/// no later than it ends and holds the ranges of the expressions and
/// statements below it.
pub open spec fn expr_spans(e: Expression) -> bool
    decreases e, 0nat,
{
    let (lo, hi) = (e.span.start as int, e.span.end as int);
    &&& lo <= hi
    &&& match e.expr {
        Expr::Assignment { expression, .. } => span_between(expression.span, lo, hi)
            && expr_spans(*expression),
        Expr::Binary { left, right, .. } => span_between(left.span, lo, hi) && expr_spans(*left)
            && span_between(right.span, lo, hi) && expr_spans(*right),
        Expr::Call { expression, arguments } => span_between(expression.span, lo, hi)
            && expr_spans(*expression) && exprs_between(arguments@, lo, hi),
        Expr::Comment { expression, .. } => span_between(expression.span, lo, hi) && expr_spans(
            *expression,
        ),
        Expr::Dictionary { items } => entries_between(items@, lo, hi),
        Expr::FormatString { expressions, .. } => exprs_between(expressions@, lo, hi),
        Expr::Function { body, .. } => span_between(body.span, lo, hi) && stmt_spans(*body),
        Expr::Group { expression } => span_between(expression.span, lo, hi) && expr_spans(
            *expression,
        ),
        Expr::Index { expression, index } => span_between(expression.span, lo, hi) && expr_spans(
            *expression,
        ) && span_between(index.span, lo, hi) && expr_spans(*index),
        Expr::IndexAssignment { expression, index, value, .. } => span_between(
            expression.span,
            lo,
            hi,
        ) && expr_spans(*expression) && span_between(index.span, lo, hi) && expr_spans(*index)
            && span_between(value.span, lo, hi) && expr_spans(*value),
        Expr::List { items } => exprs_between(items@, lo, hi),
        Expr::Literal { .. } => true,
        Expr::ModuleAccess { .. } => true,
        Expr::Unary { expression, .. } => span_between(expression.span, lo, hi) && expr_spans(
            *expression,
        ),
        Expr::Variable { .. } => true,
    }
}

/// Each expression lies between `lo` and `hi`, with its nodes as
/// `expr_spans` says.
pub open spec fn exprs_between(s: Seq<Expression>, lo: int, hi: int) -> bool
    decreases s, 0nat,
{
    if s.len() == 0 {
        true
    } else {
        exprs_between(s.subrange(0, s.len() - 1), lo, hi) && span_between(
            s[s.len() - 1].span,
            lo,
            hi,
        ) && expr_spans(s[s.len() - 1])
    }
}

/// Each key and value lies between `lo` and `hi`, with its nodes as
/// `expr_spans` says.
pub open spec fn entries_between(s: Seq<(Expression, Expression)>, lo: int, hi: int) -> bool
    decreases s, 0nat,
{
    if s.len() == 0 {
        true
    } else {
        entries_between(s.subrange(0, s.len() - 1), lo, hi) && span_between(
            s[s.len() - 1].0.span,
            lo,
            hi,
        ) && expr_spans(s[s.len() - 1].0) && span_between(s[s.len() - 1].1.span, lo, hi)
            && expr_spans(s[s.len() - 1].1)
    }
}

/// Every expression and statement node of `s` covers a range that starts
/// no later than it ends and holds the ranges of the nodes below it; the
/// statements of a block come in order and do not overlap.
pub open spec fn stmt_spans(s: Statement) -> bool
    decreases s, 0nat,
{
    let (lo, hi) = (s.span.start as int, s.span.end as int);
    &&& lo <= hi
    &&& match s.stmt {
        Stmt::Block { body } => stmts_between(body@, lo, hi) && stmts_in_order(body@),
        Stmt::Declaration { expression, .. } => match expression {
            Some(value) => span_between(value.span, lo, hi) && expr_spans(value),
            None => true,
        },
        Stmt::Expression { expression } => span_between(expression.span, lo, hi) && expr_spans(
            expression,
        ),
        Stmt::If { condition, then, otherwise } => span_between(condition.span, lo, hi)
            && expr_spans(condition) && span_between(then.span, lo, hi) && stmt_spans(*then)
            && match otherwise {
            Some(other) => span_between(other.span, lo, hi) && stmt_spans(*other),
            None => true,
        },
        Stmt::Import { .. } => true,
        Stmt::Return { expression } => match expression {
            Some(value) => span_between(value.span, lo, hi) && expr_spans(value),
            None => true,
        },
        Stmt::While { condition, body } => span_between(condition.span, lo, hi) && expr_spans(
            condition,
        ) && span_between(body.span, lo, hi) && stmt_spans(*body),
        Stmt::Comment { .. } => true,
    }
}

/// Each statement lies between `lo` and `hi`, with its nodes as
/// `stmt_spans` says.
pub open spec fn stmts_between(s: Seq<Statement>, lo: int, hi: int) -> bool
    decreases s, 0nat,
{
    if s.len() == 0 {
        true
    } else {
        stmts_between(s.subrange(0, s.len() - 1), lo, hi) && span_between(
            s[s.len() - 1].span,
            lo,
            hi,
        ) && stmt_spans(s[s.len() - 1])
    }
}

/// Each statement ends no later than the next one starts.
pub open spec fn stmts_in_order(s: Seq<Statement>) -> bool {
    forall|i: int, j: int| 0 <= i < j < s.len() ==> s[i].span.end <= s[j].span.start
}

pub proof fn lemma_exprs_between_push(s: Seq<Expression>, x: Expression, lo: int, hi: int)
    ensures
        exprs_between(s.push(x), lo, hi) == (exprs_between(s, lo, hi) && span_between(x.span, lo, hi)
            && expr_spans(x)),
        exprs_plain(s.push(x)) == (exprs_plain(s) && expr_plain(x)),
{
    assert(s.push(x).subrange(0, s.len() as int) =~= s);
}

pub proof fn lemma_entries_between_push(
    s: Seq<(Expression, Expression)>,
    x: (Expression, Expression),
    lo: int,
    hi: int,
)
    ensures
        entries_between(s.push(x), lo, hi) == (entries_between(s, lo, hi) && span_between(
            x.0.span,
            lo,
            hi,
        ) && expr_spans(x.0) && span_between(x.1.span, lo, hi) && expr_spans(x.1)),
        entries_plain(s.push(x)) == (entries_plain(s) && expr_plain(x.0) && expr_plain(x.1)),
{
    assert(s.push(x).subrange(0, s.len() as int) =~= s);
}

pub proof fn lemma_stmts_between_push(s: Seq<Statement>, x: Statement, lo: int, hi: int)
    ensures
        stmts_between(s.push(x), lo, hi) == (stmts_between(s, lo, hi) && span_between(x.span, lo, hi)
            && stmt_spans(x)),
        stmts_plain(s.push(x)) == (stmts_plain(s) && stmt_plain(x)),
{
    assert(s.push(x).subrange(0, s.len() as int) =~= s);
}

/// A wider range holds what a narrower one holds.
pub proof fn lemma_exprs_between_widen(s: Seq<Expression>, lo: int, hi: int, lo2: int, hi2: int)
    requires
        exprs_between(s, lo, hi),
        lo2 <= lo,
        hi <= hi2,
    ensures
        exprs_between(s, lo2, hi2),
    decreases s.len(),
{
    if s.len() > 0 {
        lemma_exprs_between_widen(s.subrange(0, s.len() - 1), lo, hi, lo2, hi2);
    }
}

pub proof fn lemma_entries_between_widen(
    s: Seq<(Expression, Expression)>,
    lo: int,
    hi: int,
    lo2: int,
    hi2: int,
)
    requires
        entries_between(s, lo, hi),
        lo2 <= lo,
        hi <= hi2,
    ensures
        entries_between(s, lo2, hi2),
    decreases s.len(),
{
    if s.len() > 0 {
        lemma_entries_between_widen(s.subrange(0, s.len() - 1), lo, hi, lo2, hi2);
    }
}

pub proof fn lemma_stmts_between_widen(s: Seq<Statement>, lo: int, hi: int, lo2: int, hi2: int)
    requires
        stmts_between(s, lo, hi),
        lo2 <= lo,
        hi <= hi2,
    ensures
        stmts_between(s, lo2, hi2),
    decreases s.len(),
{
    if s.len() > 0 {
        lemma_stmts_between_widen(s.subrange(0, s.len() - 1), lo, hi, lo2, hi2);
    }
}

/// What `stmts_between` says of each statement.
pub proof fn lemma_stmts_between_index(s: Seq<Statement>, lo: int, hi: int, i: int)
    requires
        stmts_between(s, lo, hi),
        0 <= i < s.len(),
    ensures
        span_between(s[i].span, lo, hi),
        stmt_spans(s[i]),
    decreases s.len(),
{
    if i < s.len() - 1 {
        lemma_stmts_between_index(s.subrange(0, s.len() - 1), lo, hi, i);
    }
}

/// The expression lies between `lo` and `hi`, with its nodes as
/// `expr_spans` says.
pub open spec fn expr_between(e: Expression, lo: int, hi: int) -> bool {
    span_between(e.span, lo, hi) && expr_spans(e)
}

/// The statement lies between `lo` and `hi`, with its nodes as
/// `stmt_spans` says.
pub open spec fn stmt_between(s: Statement, lo: int, hi: int) -> bool {
    span_between(s.span, lo, hi) && stmt_spans(s)
}

/// No statement of the expression is a list destructuring declaration
/// without a value (`let [a, b]`): the span of such a declaration ends
/// where the token after its `]` ends, which may be before it starts.
pub open spec fn expr_plain(e: Expression) -> bool
    decreases e, 0nat,
{
    match e.expr {
        Expr::Assignment { expression, .. } => expr_plain(*expression),
        Expr::Binary { left, right, .. } => expr_plain(*left) && expr_plain(*right),
        Expr::Call { expression, arguments } => expr_plain(*expression) && exprs_plain(arguments@),
        Expr::Comment { expression, .. } => expr_plain(*expression),
        Expr::Dictionary { items } => entries_plain(items@),
        Expr::FormatString { expressions, .. } => exprs_plain(expressions@),
        Expr::Function { body, .. } => stmt_plain(*body),
        Expr::Group { expression } => expr_plain(*expression),
        Expr::Index { expression, index } => expr_plain(*expression) && expr_plain(*index),
        Expr::IndexAssignment { expression, index, value, .. } => expr_plain(*expression)
            && expr_plain(*index) && expr_plain(*value),
        Expr::List { items } => exprs_plain(items@),
        Expr::Literal { .. } => true,
        Expr::ModuleAccess { .. } => true,
        Expr::Unary { expression, .. } => expr_plain(*expression),
        Expr::Variable { .. } => true,
    }
}

pub open spec fn exprs_plain(s: Seq<Expression>) -> bool
    decreases s, 0nat,
{
    if s.len() == 0 {
        true
    } else {
        exprs_plain(s.subrange(0, s.len() - 1)) && expr_plain(s[s.len() - 1])
    }
}

pub open spec fn entries_plain(s: Seq<(Expression, Expression)>) -> bool
    decreases s, 0nat,
{
    if s.len() == 0 {
        true
    } else {
        entries_plain(s.subrange(0, s.len() - 1)) && expr_plain(s[s.len() - 1].0) && expr_plain(
            s[s.len() - 1].1,
        )
    }
}

/// No statement of `s` is a list destructuring declaration without a
/// value (see `expr_plain`).
pub open spec fn stmt_plain(s: Statement) -> bool
    decreases s, 0nat,
{
    match s.stmt {
        Stmt::Block { body } => stmts_plain(body@),
        Stmt::Declaration { identifier, expression, .. } => match expression {
            Some(value) => expr_plain(value),
            None => !(identifier is Ordered),
        },
        Stmt::Expression { expression } => expr_plain(expression),
        Stmt::If { condition, then, otherwise } => expr_plain(condition) && stmt_plain(*then)
            && match otherwise {
            Some(other) => stmt_plain(*other),
            None => true,
        },
        Stmt::Import { .. } => true,
        Stmt::Return { expression } => match expression {
            Some(value) => expr_plain(value),
            None => true,
        },
        Stmt::While { condition, body } => expr_plain(condition) && stmt_plain(*body),
        Stmt::Comment { .. } => true,
    }
}

pub open spec fn stmts_plain(s: Seq<Statement>) -> bool
    decreases s, 0nat,
{
    if s.len() == 0 {
        true
    } else {
        stmts_plain(s.subrange(0, s.len() - 1)) && stmt_plain(s[s.len() - 1])
    }
}

/// `stmts_between` holds of a list whose statements each lie in the range.
pub proof fn lemma_stmts_between_all(s: Seq<Statement>, lo: int, hi: int)
    requires
        forall|i: int| 0 <= i < s.len() ==> span_between(#[trigger] s[i].span, lo, hi) && stmt_spans(s[i]),
    ensures
        stmts_between(s, lo, hi),
    decreases s.len(),
{
    if s.len() > 0 {
        let t = s.subrange(0, s.len() - 1);
        assert forall|i: int| 0 <= i < t.len() implies span_between(#[trigger] t[i].span, lo, hi)
            && stmt_spans(t[i]) by {
            assert(t[i] == s[i]);
        }
        lemma_stmts_between_all(t, lo, hi);
    }
}

} // verus!

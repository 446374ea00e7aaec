//! The syntax tree that the token-based parser builds: each node refers to
//! the tokens it was made from.
use crate::tokens::Token;
use vstd::prelude::*;

verus! {

pub type TokenRef<'source> = &'source Token<'source>;

/// Where a node of the tree starts and ends, as tokens.
pub trait GetPosition<'s> {
    /// The node has a first token (each block on the way holds a statement).
    spec fn has_start(&self) -> bool;

    /// The node has a last token (each block on the way holds a statement).
    spec fn has_end(&self) -> bool;

    fn get_start(&'s self) -> TokenRef<'s>
        requires
            self.has_start(),
    ;

    fn get_end(&'s self) -> TokenRef<'s>
        requires
            self.has_end(),
    ;
}

#[derive(Debug)]
pub enum Expr<'source> {
    Assignment { identifier: TokenRef<'source>, expression: Box<Expr<'source>> },
    Binary {
        operator: TokenRef<'source>,
        left: Box<Expr<'source>>,
        right: Box<Expr<'source>>,
    },
    Call {
        token: TokenRef<'source>,
        end_token: TokenRef<'source>,
        expression: Box<Expr<'source>>,
        arguments: Vec<Expr<'source>>,
    },
    Function {
        token: TokenRef<'source>,
        parameters: Vec<TokenRef<'source>>,
        body: Box<Stmt<'source>>,
        name: Option<&'source str>,
    },
    Group {
        token: TokenRef<'source>,
        end_token: TokenRef<'source>,
        expression: Box<Expr<'source>>,
    },
    Literal { token: TokenRef<'source>, value: &'source str },
    Unary { operator: TokenRef<'source>, expression: Box<Expr<'source>> },
    Variable { token: TokenRef<'source> },
    Comment { token: TokenRef<'source>, expression: Box<Expr<'source>> },
}

#[derive(Debug)]
pub enum Stmt<'source> {
    Block { body: Vec<Stmt<'source>> },
    Declaration {
        token: TokenRef<'source>,
        identifier: TokenRef<'source>,
        expression: Option<Expr<'source>>,
    },
    Expression { expression: Expr<'source> },
    If {
        if_token: TokenRef<'source>,
        else_token: Option<TokenRef<'source>>,
        condition: Expr<'source>,
        then: Box<Stmt<'source>>,
        otherwise: Option<Box<Stmt<'source>>>,
    },
    Return { token: TokenRef<'source>, expression: Option<Expr<'source>> },
    While { token: TokenRef<'source>, condition: Expr<'source>, body: Box<Stmt<'source>> },
    Comment { token: TokenRef<'source> },
}

/// An expression has a side effect when it calls or assigns, outside the
/// body of a function.
pub open spec fn side_effect(e: Expr) -> bool
    decreases e,
{
    match e {
        Expr::Call { .. } | Expr::Assignment { .. } => true,
        Expr::Function { .. } | Expr::Variable { .. } | Expr::Literal { .. } => false,
        Expr::Group { expression, .. } => side_effect(*expression),
        Expr::Unary { expression, .. } => side_effect(*expression),
        Expr::Comment { expression, .. } => side_effect(*expression),
        Expr::Binary { left, right, .. } => side_effect(*left) || side_effect(*right),
    }
}

/// An expression is constant when it reads no variable and calls nothing:
/// literals and functions, and what is built of them.
pub open spec fn constant(e: Expr) -> bool
    decreases e,
{
    match e {
        Expr::Call { .. } | Expr::Variable { .. } => false,
        Expr::Function { .. } | Expr::Literal { .. } => true,
        Expr::Group { expression, .. } => constant(*expression),
        Expr::Unary { expression, .. } => constant(*expression),
        Expr::Assignment { expression, .. } => constant(*expression),
        Expr::Comment { expression, .. } => constant(*expression),
        Expr::Binary { left, right, .. } => constant(*left) && constant(*right),
    }
}

/// The first token of an expression.
pub open spec fn expr_start<'s>(e: Expr<'s>) -> TokenRef<'s>
    decreases e,
{
    match e {
        Expr::Call { token, .. } => token,
        Expr::Comment { token, .. } => token,
        Expr::Function { token, .. } => token,
        Expr::Group { token, .. } => token,
        Expr::Literal { token, .. } => token,
        Expr::Variable { token, .. } => token,
        Expr::Unary { operator, .. } => operator,
        Expr::Assignment { identifier, .. } => identifier,
        Expr::Binary { left, .. } => expr_start(*left),
    }
}

/// A block on the way to the first token of a statement holds a statement.
pub open spec fn stmt_has_start(s: Stmt) -> bool
    decreases s,
{
    match s {
        Stmt::Block { body } => body@.len() > 0 && stmt_has_start(body@[0]),
        _ => true,
    }
}

/// The first token of a statement.
pub open spec fn stmt_start<'s>(s: Stmt<'s>) -> TokenRef<'s>
    decreases s,
{
    match s {
        Stmt::Block { body } => if body@.len() > 0 {
            stmt_start(body@[0])
        } else {
            arbitrary()
        },
        Stmt::Declaration { token, .. } => token,
        Stmt::Expression { expression } => expr_start(expression),
        Stmt::If { if_token, .. } => if_token,
        Stmt::Return { token, .. } => token,
        Stmt::While { token, .. } => token,
        Stmt::Comment { token } => token,
    }
}

/// Each block on the way to the last token of an expression holds a
/// statement.
pub open spec fn expr_has_end(e: Expr) -> bool
    decreases e,
{
    match e {
        Expr::Binary { right, .. } => expr_has_end(*right),
        Expr::Function { body, .. } => stmt_has_end(*body),
        Expr::Unary { expression, .. } => expr_has_end(*expression),
        _ => true,
    }
}

/// Each block on the way to the last token of a statement holds a
/// statement.
pub open spec fn stmt_has_end(s: Stmt) -> bool
    decreases s,
{
    match s {
        Stmt::Block { body } => body@.len() > 0 && stmt_has_end(body@[body@.len() - 1]),
        Stmt::Declaration { expression, .. } => match expression {
            Some(e) => expr_has_end(e),
            None => true,
        },
        Stmt::Expression { expression } => expr_has_end(expression),
        Stmt::If { then, otherwise, .. } => match otherwise {
            Some(o) => stmt_has_end(*o),
            None => stmt_has_end(*then),
        },
        Stmt::Return { expression, .. } => match expression {
            Some(e) => expr_has_end(e),
            None => true,
        },
        Stmt::While { body, .. } => stmt_has_end(*body),
        Stmt::Comment { .. } => true,
    }
}

/// The last token of an expression.
pub open spec fn expr_end<'s>(e: Expr<'s>) -> TokenRef<'s>
    decreases e,
{
    match e {
        Expr::Comment { token, .. } => token,
        Expr::Literal { token, .. } => token,
        Expr::Variable { token } => token,
        Expr::Call { end_token, .. } => end_token,
        Expr::Group { end_token, .. } => end_token,
        Expr::Assignment { identifier, .. } => identifier,
        Expr::Binary { right, .. } => expr_end(*right),
        Expr::Function { body, .. } => stmt_end(*body),
        Expr::Unary { expression, .. } => expr_end(*expression),
    }
}

/// The last token of a statement.
pub open spec fn stmt_end<'s>(s: Stmt<'s>) -> TokenRef<'s>
    decreases s,
{
    match s {
        Stmt::Block { body } => if body@.len() > 0 {
            stmt_end(body@[body@.len() - 1])
        } else {
            arbitrary()
        },
        Stmt::Declaration { identifier, expression, .. } => match expression {
            Some(e) => expr_end(e),
            None => identifier,
        },
        Stmt::Expression { expression } => expr_end(expression),
        Stmt::If { then, otherwise, .. } => match otherwise {
            Some(o) => stmt_end(*o),
            None => stmt_end(*then),
        },
        Stmt::Return { token, expression } => match expression {
            Some(e) => expr_end(e),
            None => token,
        },
        Stmt::While { body, .. } => stmt_end(*body),
        Stmt::Comment { token } => token,
    }
}

impl<'s> Expr<'s> {
    pub fn has_side_effect(&self) -> (r: bool)
        ensures
            r == side_effect(*self),
        decreases self,
    {
        match self {
            Expr::Call { .. } | Expr::Assignment { .. } => true,
            Expr::Function { .. } | Expr::Variable { .. } | Expr::Literal { .. } => false,
            Expr::Group { expression, .. } => expression.has_side_effect(),
            Expr::Unary { expression, .. } => expression.has_side_effect(),
            Expr::Comment { expression, .. } => expression.has_side_effect(),
            Expr::Binary { left, right, .. } => left.has_side_effect() || right.has_side_effect(),
        }
    }

    pub fn is_constant(&self) -> (r: bool)
        ensures
            r == constant(*self),
        decreases self,
    {
        match self {
            Expr::Call { .. } | Expr::Variable { .. } => false,
            Expr::Function { .. } | Expr::Literal { .. } => true,
            Expr::Group { expression, .. } => expression.is_constant(),
            Expr::Unary { expression, .. } => expression.is_constant(),
            Expr::Assignment { expression, .. } => expression.is_constant(),
            Expr::Comment { expression, .. } => expression.is_constant(),
            Expr::Binary { left, right, .. } => left.is_constant() && right.is_constant(),
        }
    }
}

fn expr_get_start<'s>(e: &'s Expr<'s>) -> (r: TokenRef<'s>)
    ensures
        r == expr_start(*e),
    decreases e,
{
    match e {
        Expr::Call { token, .. } => token,
        Expr::Comment { token, .. } => token,
        Expr::Function { token, .. } => token,
        Expr::Group { token, .. } => token,
        Expr::Literal { token, .. } => token,
        Expr::Variable { token, .. } => token,
        Expr::Unary { operator, .. } => operator,
        Expr::Assignment { identifier, .. } => identifier,
        Expr::Binary { left, .. } => expr_get_start(left),
    }
}

fn stmt_get_start<'s>(s: &'s Stmt<'s>) -> (r: TokenRef<'s>)
    requires
        stmt_has_start(*s),
    ensures
        r == stmt_start(*s),
    decreases s,
{
    match s {
        Stmt::Block { body } => {
            assert(decreases_to!(*s => body@[0]));
            stmt_get_start(&body[0])
        },
        Stmt::Declaration { token, .. } => token,
        Stmt::Expression { expression } => expr_get_start(expression),
        Stmt::If { if_token, .. } => if_token,
        Stmt::Return { token, .. } => token,
        Stmt::While { token, .. } => token,
        Stmt::Comment { token } => token,
    }
}

fn expr_get_end<'s>(e: &'s Expr<'s>) -> (r: TokenRef<'s>)
    requires
        expr_has_end(*e),
    ensures
        r == expr_end(*e),
    decreases e,
{
    match e {
        Expr::Comment { token, .. } => token,
        Expr::Literal { token, .. } => token,
        Expr::Variable { token } => token,
        Expr::Call { end_token, .. } => end_token,
        Expr::Group { end_token, .. } => end_token,
        Expr::Assignment { identifier, .. } => identifier,
        Expr::Binary { right, .. } => expr_get_end(right),
        Expr::Function { body, .. } => stmt_get_end(body),
        Expr::Unary { expression, .. } => expr_get_end(expression),
    }
}

fn stmt_get_end<'s>(s: &'s Stmt<'s>) -> (r: TokenRef<'s>)
    requires
        stmt_has_end(*s),
    ensures
        r == stmt_end(*s),
    decreases s,
{
    match s {
        Stmt::Block { body } => {
            let last = body.len() - 1;
            assert(decreases_to!(*s => body@[last as int]));
            stmt_get_end(&body[last])
        },
        Stmt::Declaration { identifier, expression, .. } => match expression {
            Some(e) => expr_get_end(e),
            None => identifier,
        },
        Stmt::Expression { expression } => expr_get_end(expression),
        Stmt::If { then, otherwise, .. } => match otherwise {
            Some(o) => stmt_get_end(o),
            None => stmt_get_end(then),
        },
        Stmt::Return { token, expression } => match expression {
            Some(e) => expr_get_end(e),
            None => token,
        },
        Stmt::While { body, .. } => stmt_get_end(body),
        Stmt::Comment { token } => token,
    }
}

impl<'s> GetPosition<'s> for Expr<'s> {
    open spec fn has_start(&self) -> bool {
        true
    }

    open spec fn has_end(&self) -> bool {
        expr_has_end(*self)
    }

    fn get_start(&'s self) -> (r: TokenRef<'s>)
        ensures
            r == expr_start(*self),
    {
        expr_get_start(self)
    }

    fn get_end(&'s self) -> (r: TokenRef<'s>)
        ensures
            r == expr_end(*self),
    {
        expr_get_end(self)
    }
}

impl<'s> GetPosition<'s> for Stmt<'s> {
    open spec fn has_start(&self) -> bool {
        stmt_has_start(*self)
    }

    open spec fn has_end(&self) -> bool {
        stmt_has_end(*self)
    }

    fn get_start(&'s self) -> (r: TokenRef<'s>)
        ensures
            r == stmt_start(*self),
    {
        stmt_get_start(self)
    }

    fn get_end(&'s self) -> (r: TokenRef<'s>)
        ensures
            r == stmt_end(*self),
    {
        stmt_get_end(self)
    }
}

/// A node of the tree as a visitor is handed it.
pub enum Visited<'s> {
    Expression(Expr<'s>),
    Statement(Stmt<'s>),
}

/// The nodes of an expression in the order `walk_expression` exits them:
/// what the expression holds, in the order of the source, then the
/// expression itself.
pub open spec fn expr_postorder<'s>(e: Expr<'s>) -> Seq<Visited<'s>>
    decreases e,
{
    let inner = match e {
        Expr::Assignment { expression, .. } => expr_postorder(*expression),
        Expr::Group { expression, .. } => expr_postorder(*expression),
        Expr::Unary { expression, .. } => expr_postorder(*expression),
        Expr::Comment { expression, .. } => expr_postorder(*expression),
        Expr::Binary { left, right, .. } => expr_postorder(*left) + expr_postorder(*right),
        Expr::Call { expression, arguments, .. } => expr_postorder(*expression) + exprs_postorder(
            arguments@,
        ),
        Expr::Function { body, .. } => stmt_postorder(*body),
        Expr::Literal { .. } => Seq::empty(),
        Expr::Variable { .. } => Seq::empty(),
    };
    inner.push(Visited::Expression(e))
}

/// The nodes of a list of expressions, one after the other.
pub open spec fn exprs_postorder<'s>(es: Seq<Expr<'s>>) -> Seq<Visited<'s>>
    decreases es,
{
    if es.len() == 0 {
        Seq::empty()
    } else {
        exprs_postorder(es.subrange(0, es.len() - 1)) + expr_postorder(es[es.len() - 1])
    }
}

/// The nodes of a statement in the order `walk_statement` exits them:
/// what the statement holds, in the order of the source, then the
/// statement itself.
pub open spec fn stmt_postorder<'s>(s: Stmt<'s>) -> Seq<Visited<'s>>
    decreases s,
{
    let inner = match s {
        Stmt::Block { body } => stmts_postorder(body@),
        Stmt::Declaration { expression, .. } => match expression {
            Some(e) => expr_postorder(e),
            None => Seq::empty(),
        },
        Stmt::Expression { expression } => expr_postorder(expression),
        Stmt::If { condition, then, otherwise, .. } => expr_postorder(condition) + stmt_postorder(
            *then,
        ) + match otherwise {
            Some(o) => stmt_postorder(*o),
            None => Seq::empty(),
        },
        Stmt::Return { expression, .. } => match expression {
            Some(e) => expr_postorder(e),
            None => Seq::empty(),
        },
        Stmt::While { condition, body, .. } => expr_postorder(condition) + stmt_postorder(*body),
        Stmt::Comment { .. } => Seq::empty(),
    };
    inner.push(Visited::Statement(s))
}

/// The nodes of a list of statements, one after the other.
pub open spec fn stmts_postorder<'s>(ss: Seq<Stmt<'s>>) -> Seq<Visited<'s>>
    decreases ss,
{
    if ss.len() == 0 {
        Seq::empty()
    } else {
        stmts_postorder(ss.subrange(0, ss.len() - 1)) + stmt_postorder(ss[ss.len() - 1])
    }
}

/// What is done on each node of a tree as `visit` walks it. The nodes a
/// visitor has been handed so far are its `trace`. A visitor keeps it as a
/// ghost record of what `exit_expression` and `exit_statement` were given;
/// the empty default stands for a visitor written outside Verus, whose
/// methods are not held to their contracts.
pub trait Visitor<'s> {
    open spec fn trace(&self) -> Seq<Visited<'s>> {
        Seq::empty()
    }

    fn exit_expression(&mut self, expression: &Expr<'s>)
        ensures
            final(self).trace() == old(self).trace().push(Visited::Expression(*expression)),
    ;

    fn exit_statement(&mut self, statement: &Stmt<'s>)
        ensures
            final(self).trace() == old(self).trace().push(Visited::Statement(*statement)),
    ;
}

/// Walks the statements in order: each statement and expression is
/// visited after what it holds, in the order of the source, and the
/// visitor's `exit_statement` or `exit_expression` is called on it.
pub fn visit<'s, V: Visitor<'s>>(visitor: &mut V, statements: &[Stmt<'s>])
    ensures
        final(visitor).trace() == old(visitor).trace() + stmts_postorder(statements@),
{
    let ghost start = visitor.trace();
    let mut i: usize = 0;
    while i < statements.len()
        invariant
            i <= statements@.len(),
            visitor.trace() == start + stmts_postorder(statements@.subrange(0, i as int)),
        decreases statements@.len() - i,
    {
        walk_statement(visitor, &statements[i]);
        proof {
            assert(statements@.subrange(0, i + 1).subrange(0, i as int) =~= statements@.subrange(
                0,
                i as int,
            ));
        }
        i = i + 1;
    }
    proof {
        assert(statements@.subrange(0, statements@.len() as int) =~= statements@);
    }
}

/// Visits what a statement holds, then exits the statement.
pub fn walk_statement<'s, V: Visitor<'s>>(visitor: &mut V, statement: &Stmt<'s>)
    ensures
        final(visitor).trace() == old(visitor).trace() + stmt_postorder(*statement),
    decreases statement,
{
    let ghost start = visitor.trace();
    match statement {
        Stmt::Block { body } => {
            let mut i: usize = 0;
            while i < body.len()
                invariant
                    statement matches Stmt::Block { body: b } && b == body,
                    i <= body@.len(),
                    visitor.trace() == start + stmts_postorder(body@.subrange(0, i as int)),
                decreases body@.len() - i,
            {
                assert(decreases_to!(*statement => body@[i as int]));
                walk_statement(visitor, &body[i]);
                proof {
                    assert(body@.subrange(0, i + 1).subrange(0, i as int) =~= body@.subrange(
                        0,
                        i as int,
                    ));
                }
                i = i + 1;
            }
            proof {
                assert(body@.subrange(0, body@.len() as int) =~= body@);
            }
        },
        Stmt::Declaration { expression, .. } => {
            if let Some(expression) = expression {
                walk_expression(visitor, expression);
            }
        },
        Stmt::Expression { expression } => walk_expression(visitor, expression),
        Stmt::If { condition, then, otherwise, .. } => {
            walk_expression(visitor, condition);
            walk_statement(visitor, then);
            if let Some(otherwise) = otherwise {
                walk_statement(visitor, otherwise);
            }
        },
        Stmt::Return { expression, .. } => {
            if let Some(expression) = expression {
                walk_expression(visitor, expression);
            }
        },
        Stmt::While { condition, body, .. } => {
            walk_expression(visitor, condition);
            walk_statement(visitor, body);
        },
        Stmt::Comment { .. } => {},
    }
    visitor.exit_statement(statement);
}

/// Visits what an expression holds, then exits the expression.
pub fn walk_expression<'s, V: Visitor<'s>>(visitor: &mut V, expression: &Expr<'s>)
    ensures
        final(visitor).trace() == old(visitor).trace() + expr_postorder(*expression),
    decreases expression,
{
    let ghost start = visitor.trace();
    match expression {
        Expr::Assignment { expression: inner, .. } => walk_expression(visitor, inner),
        Expr::Group { expression: inner, .. } => walk_expression(visitor, inner),
        Expr::Unary { expression: inner, .. } => walk_expression(visitor, inner),
        Expr::Binary { left, right, .. } => {
            walk_expression(visitor, left);
            walk_expression(visitor, right);
        },
        Expr::Call { expression: callee, arguments, .. } => {
            walk_expression(visitor, callee);
            let ghost after_callee = visitor.trace();
            let mut i: usize = 0;
            while i < arguments.len()
                invariant
                    expression matches Expr::Call { arguments: a, .. } && a == arguments,
                    i <= arguments@.len(),
                    visitor.trace() == after_callee + exprs_postorder(
                        arguments@.subrange(0, i as int),
                    ),
                decreases arguments@.len() - i,
            {
                assert(decreases_to!(*expression => arguments@[i as int]));
                walk_expression(visitor, &arguments[i]);
                proof {
                    assert(arguments@.subrange(0, i + 1).subrange(0, i as int)
                        =~= arguments@.subrange(0, i as int));
                }
                i = i + 1;
            }
            proof {
                assert(arguments@.subrange(0, arguments@.len() as int) =~= arguments@);
            }
        },
        Expr::Function { body, .. } => walk_statement(visitor, body),
        Expr::Literal { .. } | Expr::Variable { .. } => {},
        Expr::Comment { expression: inner, .. } => walk_expression(visitor, inner),
    }
    visitor.exit_expression(expression);
}

} // verus!

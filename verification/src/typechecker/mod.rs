//! The typechecker: infers a type for each expression of a program and
//! reports where the types do not fit.
//!
//! It checks a program in one pass, in order, so a function may call only
//! functions declared before it (and itself), and it does not check
//! imports.
pub mod types;
pub mod restrictions;

use crate::diagnostic::Diagnostic;
use crate::syntax::ast::{
    line_at, lines_fit, BinaryOperator, DeclarationIdentifier, Expr, Expression, LiteralType,
    Span, Statement, Stmt, Type as TypeItem, TypeExpression, UnaryOperator,
};
use crate::syntax::tokens::{count_newlines, lemma_count_newlines, lemma_count_newlines_split, LineNumber};
use crate::text::{bytes_of, decimal, same_chars, write_decimal};
use ahash::AHashMap;
use restrictions::{
    list_map, map_from_list, map_get, map_insert, map_into_list, restriction_entries,
    lemma_list_map, Restriction,
};
use types::{counted, flatten, narrowed, typed_as_list,
    add_type, builtin_table, builtin_types, fits, flatten_type, is_falsy, is_truthy, name_of_type, narrow, table_ok, type_is_falsy,
    type_is_truthy, type_matches, type_name_text, union_types, uplevel, uplevel_type, Type, ANY, BOOLEAN,
    FALSE, NEVER, NULL, NUMBER, NUMBER_OR_STRING, STRING, TRUE,
};
use vstd::prelude::*;
use vstd::string::StringExecFns;

verus! {

// ---------------------------------------------------------------------
// What programs the typechecker takes
// ---------------------------------------------------------------------

/// The names that `a or b` narrows: the one name that both narrow, when
/// there is only one, else none.
pub open spec fn or_names(l: Set<Seq<char>>, r: Set<Seq<char>>) -> Set<Seq<char>> {
    if exists|x: Seq<char>| l == set![x] && r.subset_of(l) {
        l
    } else {
        Set::empty()
    }
}

/// The names that a condition narrows (the names of `get_restrictions`).
pub open spec fn restricted_names(e: Expression) -> Set<Seq<char>>
    decreases e,
{
    match e.expr {
        Expr::Group { expression } => restricted_names(*expression),
        Expr::Binary { operator, left, right } => match operator {
            BinaryOperator::And => restricted_names(*left).union(restricted_names(*right)),
            BinaryOperator::Or => or_names(restricted_names(*left), restricted_names(*right)),
            BinaryOperator::Equal | BinaryOperator::NotEqual => match left.expr {
                Expr::Variable { name } => set![name@],
                _ => Set::empty(),
            },
            _ => Set::empty(),
        },
        _ => Set::empty(),
    }
}

/// Every `or` that narrowing looks into narrows something on its left.
pub open spec fn narrowable(e: Expression) -> bool
    decreases e,
{
    match e.expr {
        Expr::Group { expression } => narrowable(*expression),
        Expr::Binary { operator, left, right } => match operator {
            BinaryOperator::And => narrowable(*left) && narrowable(*right),
            BinaryOperator::Or => narrowable(*left) && narrowable(*right) && restricted_names(
                *left,
            ) != Set::<Seq<char>>::empty(),
            _ => true,
        },
        _ => true,
    }
}

/// An expression the typechecker takes with `room` more scopes left to
/// open: no import, no `return` of a value outside a function, and every `or` that
/// narrowing looks into narrows something on its left.
pub open spec fn expr_ok(e: Expression, room: nat) -> bool
    decreases e, 0nat,
{
    match e.expr {
        Expr::Assignment { expression, .. } => expr_ok(*expression, room),
        Expr::Binary { left, right, .. } => expr_ok(*left, room) && expr_ok(*right, room),
        Expr::Call { expression, arguments } => expr_ok(*expression, room) && exprs_ok(
            arguments@,
            room,
        ),
        Expr::Comment { expression, .. } => expr_ok(*expression, room),
        Expr::Dictionary { items } => entries_ok(items@, room),
        Expr::FormatString { expressions, .. } => exprs_ok(expressions@, room),
        Expr::Function { body, .. } => room >= 1 && stmt_ok(*body, (room - 1) as nat, true),
        Expr::Group { expression } => expr_ok(*expression, room),
        Expr::Index { expression, index } => expr_ok(*expression, room) && expr_ok(*index, room),
        Expr::IndexAssignment { expression, index, value, .. } => expr_ok(*expression, room)
            && expr_ok(*index, room) && expr_ok(*value, room),
        Expr::List { items } => exprs_ok(items@, room),
        Expr::Literal { .. } => true,
        Expr::ModuleAccess { .. } => true,
        Expr::Unary { expression, .. } => expr_ok(*expression, room),
        Expr::Variable { .. } => true,
    }
}

pub open spec fn exprs_ok(s: Seq<Expression>, room: nat) -> bool
    decreases s, 0nat,
{
    if s.len() == 0 {
        true
    } else {
        exprs_ok(s.subrange(0, s.len() - 1), room) && expr_ok(s[s.len() - 1], room)
    }
}

pub open spec fn entries_ok(s: Seq<(Expression, Expression)>, room: nat) -> bool
    decreases s, 0nat,
{
    if s.len() == 0 {
        true
    } else {
        entries_ok(s.subrange(0, s.len() - 1), room) && expr_ok(s[s.len() - 1].0, room) && expr_ok(
            s[s.len() - 1].1,
            room,
        )
    }
}

/// A statement the typechecker takes with `room` more scopes left to open,
/// inside a function or not.
pub open spec fn stmt_ok(s: Statement, room: nat, in_function: bool) -> bool
    decreases s, 0nat,
{
    match s.stmt {
        Stmt::Block { body } => room >= 1 && stmts_ok(body@, (room - 1) as nat, in_function),
        Stmt::Declaration { expression, .. } => match expression {
            Some(value) => expr_ok(value, room),
            None => true,
        },
        Stmt::Expression { expression } => expr_ok(expression, room),
        Stmt::If { condition, then, otherwise } => expr_ok(condition, room) && narrowable(
            condition,
        ) && room >= 1 && stmt_ok(*then, (room - 1) as nat, in_function) && match otherwise {
            Some(other) => stmt_ok(*other, (room - 1) as nat, in_function),
            None => true,
        },
        Stmt::Import { .. } => false,
        Stmt::Return { expression } => match expression {
            Some(value) => in_function && expr_ok(value, room),
            None => true,
        },
        Stmt::While { condition, body } => expr_ok(condition, room) && narrowable(condition)
            && room >= 1 && stmt_ok(*body, (room - 1) as nat, in_function),
        Stmt::Comment { .. } => true,
    }
}

pub open spec fn stmts_ok(s: Seq<Statement>, room: nat, in_function: bool) -> bool
    decreases s, 0nat,
{
    if s.len() == 0 {
        true
    } else {
        stmts_ok(s.subrange(0, s.len() - 1), room, in_function) && stmt_ok(
            s[s.len() - 1],
            room,
            in_function,
        )
    }
}

/// The most scopes a program may nest (the depth is a `u8`).
pub open spec fn max_room() -> nat {
    255
}

proof fn lemma_exprs_ok(s: Seq<Expression>, room: nat, i: int)
    requires
        exprs_ok(s, room),
        0 <= i < s.len(),
    ensures
        expr_ok(s[i], room),
    decreases s.len(),
{
    if i < s.len() - 1 {
        lemma_exprs_ok(s.subrange(0, s.len() - 1), room, i);
    }
}

proof fn lemma_entries_ok(s: Seq<(Expression, Expression)>, room: nat, i: int)
    requires
        entries_ok(s, room),
        0 <= i < s.len(),
    ensures
        expr_ok(s[i].0, room),
        expr_ok(s[i].1, room),
    decreases s.len(),
{
    if i < s.len() - 1 {
        lemma_entries_ok(s.subrange(0, s.len() - 1), room, i);
    }
}

proof fn lemma_stmts_ok(s: Seq<Statement>, room: nat, in_function: bool, i: int)
    requires
        stmts_ok(s, room, in_function),
        0 <= i < s.len(),
    ensures
        stmt_ok(s[i], room, in_function),
    decreases s.len(),
{
    if i < s.len() - 1 {
        lemma_stmts_ok(s.subrange(0, s.len() - 1), room, in_function, i);
    }
}

// ---------------------------------------------------------------------
// Errors
// ---------------------------------------------------------------------

enum Error {
    ExpectedType,
    NotCallable,
    WrongNumberArguments,
    UnknownType,
    UnknownVariable,
}

impl Error {
    spec fn spec_title(&self) -> Seq<char> {
        match self {
            Self::ExpectedType => "Expected Types to Match"@,
            Self::NotCallable => "Type Not Callable"@,
            Self::WrongNumberArguments => "Wrong Number of Arguments"@,
            Self::UnknownType => "Unknown Type"@,
            Self::UnknownVariable => "Unknown Variable"@,
        }
    }

    fn get_title(&self) -> (r: &'static str)
        ensures
            r@ == self.spec_title(),
    {
        match self {
            Self::ExpectedType => "Expected Types to Match",
            Self::NotCallable => "Type Not Callable",
            Self::WrongNumberArguments => "Wrong Number of Arguments",
            Self::UnknownType => "Unknown Type",
            Self::UnknownVariable => "Unknown Variable",
        }
    }
}

/// The titles of the typechecker's errors.
pub open spec fn error_title(title: Seq<char>) -> bool {
    ||| title == "Expected Types to Match"@
    ||| title == "Type Not Callable"@
    ||| title == "Wrong Number of Arguments"@
    ||| title == "Unknown Type"@
    ||| title == "Unknown Variable"@
}

/// A diagnostic of the typechecker: titled by one of its errors, and on one
/// line, a line of the source.
pub open spec fn checked_diagnostic(d: Diagnostic, b: Seq<u8>) -> bool {
    &&& error_title(d.title@)
    &&& d.lines@.len() == 1
    &&& 1 <= d.lines@[0] <= 1 + count_newlines(b, 0, b.len() as int)
}

/// A diagnostic with this title and message on the line where `span`
/// starts.
pub open spec fn is_diagnostic(d: Diagnostic, b: Seq<u8>, title: Seq<char>, message: Seq<char>, span: Span) -> bool {
    &&& d.title@ == title
    &&& d.message@ == message
    &&& d.lines@ == seq![line_at(b, span.start as int) as LineNumber]
}

// ---------------------------------------------------------------------
// The checker
// ---------------------------------------------------------------------

/// The name and span of the variable that a statement is made of, when it
/// is an expression statement of a lone variable.
pub open spec fn variable_statement(s: Statement) -> Option<(Seq<char>, Span)> {
    match s.stmt {
        Stmt::Expression { expression } => match expression.expr {
            Expr::Variable { name } => Some((name@, expression.span)),
            _ => None,
        },
        _ => None,
    }
}

/// The type of the literal that a declaration without annotation gives
/// its one variable, when the statement is such a declaration.
pub open spec fn declared_literal(s: Statement) -> Option<usize> {
    match s.stmt {
        Stmt::Declaration { identifier: DeclarationIdentifier::Variable(_), type_: None, expression: Some(value) } =>
            match value.expr {
            Expr::Literal { type_, .. } => Some(
                match type_ {
                    LiteralType::String => STRING,
                    LiteralType::Number => NUMBER,
                    LiteralType::True => TRUE,
                    LiteralType::False => FALSE,
                    LiteralType::Null => NULL,
                },
            ),
            _ => None,
        },
        _ => None,
    }
}

/// What a declaration binds includes `name`: its one variable, one of
/// the list, or one of the named items (by its alias where it has one).
pub open spec fn binds(identifier: DeclarationIdentifier, name: Seq<char>) -> bool {
    match identifier {
        DeclarationIdentifier::Variable(n) => n@ == name,
        DeclarationIdentifier::Ordered(names) => exists|k: int|
            0 <= k < names@.len() && (#[trigger] names@[k])@ == name,
        DeclarationIdentifier::Named(items) => exists|k: int|
            0 <= k < items@.len() && (match (#[trigger] items@[k]).alias {
                Some(alias) => alias@,
                None => items@[k].name@,
            }) == name,
    }
}

/// The statement is a declaration that binds `name`.
pub open spec fn declares(s: Statement, name: Seq<char>) -> bool {
    match s.stmt {
        Stmt::Declaration { identifier, .. } => binds(identifier, name),
        _ => false,
    }
}

/// The type of a literal.
pub open spec fn literal_type_code(t: LiteralType) -> usize {
    match t {
        LiteralType::String => STRING,
        LiteralType::Number => NUMBER,
        LiteralType::True => TRUE,
        LiteralType::False => FALSE,
        LiteralType::Null => NULL,
    }
}

/// The type that checking `e` gives without adding a type or an error,
/// where it is a literal, a variable in scope, or such an operand in
/// brackets or before a comment.
pub open spec fn operand_type(vars: Seq<Variable>, e: Expression) -> Option<usize>
    decreases e,
{
    match e.expr {
        Expr::Literal { type_, .. } => Some(literal_type_code(type_)),
        Expr::Variable { name } => if lookup_index(vars, name@) >= 0 {
            Some(vars[lookup_index(vars, name@)].type_)
        } else {
            None
        },
        Expr::Group { expression } => operand_type(vars, *expression),
        Expr::Comment { expression, .. } => operand_type(vars, *expression),
        _ => None,
    }
}

/// The type a built-in type name stands for.
pub open spec fn named_type(name: Seq<char>) -> Option<usize> {
    if name == "string"@ {
        Some(STRING)
    } else if name == "number"@ {
        Some(NUMBER)
    } else if name == "boolean"@ {
        Some(BOOLEAN)
    } else if name == "null"@ {
        Some(NULL)
    } else if name == "false"@ {
        Some(FALSE)
    } else if name == "true"@ {
        Some(TRUE)
    } else if name == "any"@ {
        Some(ANY)
    } else {
        None
    }
}

/// The type a declaration gives its variable when its value has type
/// `value`: that of the annotation where it is a built-in name, the
/// value's where there is none.
pub open spec fn declared_annotation(annotation: Option<TypeExpression>, value: usize) -> Option<usize> {
    match annotation {
        None => Some(value),
        Some(t) => match t.type_ {
            TypeItem::Named(n) => named_type(n@),
            _ => None,
        },
    }
}

/// The message of a type that does not fit the one expected.
pub open spec fn mismatch_message(types: Seq<Type>, got: nat, expected: nat) -> Seq<char> {
    "Expected type '"@ + name_of_type(types, expected) + "' but received '"@ + name_of_type(types, got)
        + "'"@
}

/// `after` is `before` with, for each check `(got, expected)` in order
/// where `got` does not fit `expected`, one "Expected Types to Match"
/// diagnostic on the line where `span` starts.
pub open spec fn checked_errors(
    before: Seq<Diagnostic>,
    after: Seq<Diagnostic>,
    b: Seq<u8>,
    types: Seq<Type>,
    checks: Seq<(usize, usize)>,
    span: Span,
) -> bool
    decreases checks.len(),
{
    if checks.len() == 0 {
        after == before
    } else {
        let c = checks.last();
        let rest = checks.drop_last();
        if fits(types, c.0 as nat, c.1 as nat) {
            checked_errors(before, after, b, types, rest, span)
        } else {
            &&& after.len() > 0
            &&& checked_errors(before, after.drop_last(), b, types, rest, span)
            &&& is_diagnostic(
                after.last(),
                b,
                "Expected Types to Match"@,
                mismatch_message(types, c.0 as nat, c.1 as nat),
                span,
            )
        }
    }
}

proof fn lemma_checked_one(
    before: Seq<Diagnostic>,
    after: Seq<Diagnostic>,
    b: Seq<u8>,
    types: Seq<Type>,
    c: (usize, usize),
    span: Span,
)
    requires
        fits(types, c.0 as nat, c.1 as nat) ==> after == before,
        !fits(types, c.0 as nat, c.1 as nat) ==> after.len() > 0 && after.drop_last() == before
            && is_diagnostic(
            after.last(),
            b,
            "Expected Types to Match"@,
            mismatch_message(types, c.0 as nat, c.1 as nat),
            span,
        ),
    ensures
        checked_errors(before, after, b, types, seq![c], span),
{
    reveal_with_fuel(checked_errors, 2);
    assert(seq![c].drop_last() =~= Seq::<(usize, usize)>::empty());
    assert(seq![c].last() == c);
}

/// A check of a type `got` against a type `expected`, reported at a span
/// when it fails.
pub type Check = (usize, usize, Span);

/// `after` is `before` with, for each check in order whose type does not
/// fit, one "Expected Types to Match" diagnostic on the line where the
/// check's span starts.
pub open spec fn check_errors(
    before: Seq<Diagnostic>,
    after: Seq<Diagnostic>,
    b: Seq<u8>,
    types: Seq<Type>,
    checks: Seq<Check>,
) -> bool
    decreases checks.len(),
{
    if checks.len() == 0 {
        after == before
    } else {
        let c = checks.last();
        let rest = checks.drop_last();
        if fits(types, c.0 as nat, c.1 as nat) {
            check_errors(before, after, b, types, rest)
        } else {
            &&& after.len() > 0
            &&& check_errors(before, after.drop_last(), b, types, rest)
            &&& is_diagnostic(
                after.last(),
                b,
                "Expected Types to Match"@,
                mismatch_message(types, c.0 as nat, c.1 as nat),
                c.2,
            )
        }
    }
}

proof fn lemma_check_errors_one(
    before: Seq<Diagnostic>,
    after: Seq<Diagnostic>,
    b: Seq<u8>,
    types: Seq<Type>,
    got: usize,
    expected: usize,
    span: Span,
)
    requires
        checked_errors(before, after, b, types, seq![(got, expected)], span),
    ensures
        check_errors(before, after, b, types, seq![(got, expected, span)]),
{
    reveal_with_fuel(checked_errors, 2);
    reveal_with_fuel(check_errors, 2);
    assert(seq![(got, expected)].drop_last() =~= Seq::<(usize, usize)>::empty());
    assert(seq![(got, expected, span)].drop_last() =~= Seq::<Check>::empty());
}

proof fn lemma_check_errors_concat(
    a: Seq<Diagnostic>,
    m: Seq<Diagnostic>,
    c: Seq<Diagnostic>,
    b: Seq<u8>,
    types: Seq<Type>,
    first: Seq<Check>,
    second: Seq<Check>,
)
    requires
        check_errors(a, m, b, types, first),
        check_errors(m, c, b, types, second),
    ensures
        check_errors(a, c, b, types, first + second),
    decreases second.len(),
{
    if second.len() == 0 {
        assert(first + second =~= first);
    } else {
        let x = second.last();
        let rest = second.drop_last();
        assert((first + second).drop_last() =~= first + rest);
        assert((first + second).last() == x);
        if fits(types, x.0 as nat, x.1 as nat) {
            lemma_check_errors_concat(a, m, c, b, types, first, rest);
        } else {
            lemma_check_errors_concat(a, m, c.drop_last(), b, types, first, rest);
        }
    }
}

/// `null` narrowed by `null` leaves nothing.
proof fn lemma_null_narrows_to_never(types: Seq<Type>)
    requires
        table_ok(types),
    ensures
        narrowed(types, NULL as nat, NULL as nat).len() == 0,
{
    let f = flatten(types, NULL as nat);
    assert(f =~= seq![NULL]);
    assert(fits(types, NULL as nat, NULL as nat));
    reveal_with_fuel(Seq::filter, 2);
    assert(f.drop_last() =~= Seq::<usize>::empty());
}

/// A union of `never` and `t` counts only `t`, if anything.
proof fn lemma_never_joins_nothing(t: usize)
    ensures
        counted(seq![NEVER, t]) == (if t == NEVER {
            Seq::<usize>::empty()
        } else {
            seq![t]
        }),
{
    reveal_with_fuel(Seq::filter, 3);
    assert(seq![NEVER, t].drop_last() =~= seq![NEVER]);
    assert(seq![NEVER].drop_last() =~= Seq::<usize>::empty());
    assert(Seq::<usize>::empty().push(t) =~= seq![t]);
}

/// The type of an expression built of literals, variables in scope,
/// brackets, comments, `-` and `!` before an operand, and the arithmetic,
/// comparison and equality operators (and `and` and `or` where the left
/// side's type decides them, and `??` where the left side is `null` or
/// cannot be `null`), with the type checks that checking it makes, in order; none for
/// any other expression.
pub open spec fn operand_checks(types: Seq<Type>, vars: Seq<Variable>, e: Expression) -> Option<(usize, Seq<Check>)>
    decreases e,
{
    match e.expr {
        Expr::Literal { type_, .. } => Some((literal_type_code(type_), Seq::empty())),
        Expr::Variable { name } => if lookup_index(vars, name@) >= 0 {
            Some((vars[lookup_index(vars, name@)].type_, Seq::empty()))
        } else {
            None
        },
        Expr::Group { expression } => operand_checks(types, vars, *expression),
        Expr::Comment { expression, .. } => operand_checks(types, vars, *expression),
        Expr::Unary { operator, expression } => match operand_checks(types, vars, *expression) {
            Some(inner) => match operator {
                UnaryOperator::Minus => Some((NUMBER, inner.1.push((inner.0, NUMBER, e.span)))),
                UnaryOperator::Not => Some(
                    (
                        if is_truthy(types, inner.0 as nat) {
                            FALSE
                        } else if is_falsy(types, inner.0 as nat) {
                            TRUE
                        } else {
                            BOOLEAN
                        },
                        inner.1,
                    ),
                ),
            },
            None => None,
        },
        Expr::Binary { operator, left, right } => match (
            operand_checks(types, vars, *left),
            operand_checks(types, vars, *right),
        ) {
            (Some(l), Some(r)) => {
                let both = l.1 + r.1;
                match operator {
                    BinaryOperator::Plus => Some(
                        (l.0, both + seq![(l.0, NUMBER_OR_STRING, e.span), (r.0, l.0, e.span)]),
                    ),
                    BinaryOperator::Minus | BinaryOperator::Multiply | BinaryOperator::Divide => Some(
                        (NUMBER, both + seq![(l.0, NUMBER, e.span), (r.0, NUMBER, e.span)]),
                    ),
                    BinaryOperator::Equal | BinaryOperator::NotEqual => Some(
                        (BOOLEAN, both + seq![(r.0, l.0, e.span)]),
                    ),
                    BinaryOperator::Greater | BinaryOperator::Less | BinaryOperator::GreaterEqual
                    | BinaryOperator::LessEqual => Some(
                        (BOOLEAN, both + seq![(l.0, NUMBER_OR_STRING, e.span), (r.0, l.0, e.span)]),
                    ),
                    BinaryOperator::And => if is_falsy(types, l.0 as nat) {
                        Some((l.0, both))
                    } else if is_truthy(types, l.0 as nat) {
                        Some((r.0, both))
                    } else {
                        None
                    },
                    BinaryOperator::Or => if is_falsy(types, l.0 as nat) {
                        Some((r.0, both))
                    } else if is_truthy(types, l.0 as nat) {
                        Some((l.0, both))
                    } else {
                        None
                    },
                    BinaryOperator::Nullish => if l.0 == NULL {
                        Some((r.0, both))
                    } else if fits(types, NULL as nat, l.0 as nat) {
                        None
                    } else {
                        Some((l.0, both))
                    },
                    _ => None,
                }
            },
            _ => None,
        },
        _ => None,
    }
}

proof fn lemma_operands_then(
    o: Seq<Diagnostic>,
    a: Seq<Diagnostic>,
    m: Seq<Diagnostic>,
    b: Seq<u8>,
    types: Seq<Type>,
    cl: Seq<Check>,
    cr: Seq<Check>,
)
    requires
        check_errors(o, a, b, types, cl),
        check_errors(a, m, b, types, cr),
    ensures
        check_errors(o, m, b, types, cl + cr),
{
    lemma_check_errors_concat(o, a, m, b, types, cl, cr);
}

proof fn lemma_then_one(
    o: Seq<Diagnostic>,
    m: Seq<Diagnostic>,
    f: Seq<Diagnostic>,
    b: Seq<u8>,
    types: Seq<Type>,
    cs: Seq<Check>,
    got: usize,
    expected: usize,
    span: Span,
)
    requires
        check_errors(o, m, b, types, cs),
        checked_errors(m, f, b, types, seq![(got, expected)], span),
    ensures
        check_errors(o, f, b, types, cs + seq![(got, expected, span)]),
        check_errors(o, f, b, types, cs.push((got, expected, span))),
{
    lemma_check_errors_one(m, f, b, types, got, expected, span);
    lemma_check_errors_concat(o, m, f, b, types, cs, seq![(got, expected, span)]);
    assert(cs.push((got, expected, span)) =~= cs + seq![(got, expected, span)]);
}

proof fn lemma_then_two(
    o: Seq<Diagnostic>,
    m: Seq<Diagnostic>,
    c: Seq<Diagnostic>,
    f: Seq<Diagnostic>,
    b: Seq<u8>,
    types: Seq<Type>,
    cs: Seq<Check>,
    x: (usize, usize),
    y: (usize, usize),
    span: Span,
)
    requires
        check_errors(o, m, b, types, cs),
        checked_errors(m, c, b, types, seq![x], span),
        checked_errors(c, f, b, types, seq![y], span),
    ensures
        check_errors(o, f, b, types, cs + seq![(x.0, x.1, span), (y.0, y.1, span)]),
{
    lemma_then_one(o, m, c, b, types, cs, x.0, x.1, span);
    lemma_then_one(o, c, f, b, types, cs + seq![(x.0, x.1, span)], y.0, y.1, span);
    assert(cs + seq![(x.0, x.1, span)] + seq![(y.0, y.1, span)] =~= cs + seq![(x.0, x.1, span), (y.0, y.1, span)]);
}

/// Each argument's type paired with its parameter's.
pub open spec fn argument_checks(arguments: Seq<usize>, params: Seq<usize>) -> Seq<(usize, usize)> {
    Seq::new(arguments.len(), |k: int| (arguments[k], params[k]))
}

proof fn lemma_checked_push(
    a: Seq<Diagnostic>,
    m: Seq<Diagnostic>,
    c: Seq<Diagnostic>,
    b: Seq<u8>,
    types: Seq<Type>,
    checks: Seq<(usize, usize)>,
    x: (usize, usize),
    span: Span,
)
    requires
        checked_errors(a, m, b, types, checks, span),
        checked_errors(m, c, b, types, seq![x], span),
    ensures
        checked_errors(a, c, b, types, checks.push(x), span),
{
    reveal_with_fuel(checked_errors, 2);
    assert(checks.push(x).drop_last() =~= checks);
    assert(seq![x].drop_last() =~= Seq::<(usize, usize)>::empty());
    assert(seq![x].last() == x);
}

proof fn lemma_checked_two(
    a: Seq<Diagnostic>,
    m: Seq<Diagnostic>,
    c: Seq<Diagnostic>,
    b: Seq<u8>,
    types: Seq<Type>,
    c1: (usize, usize),
    c2: (usize, usize),
    span: Span,
)
    requires
        checked_errors(a, m, b, types, seq![c1], span),
        checked_errors(m, c, b, types, seq![c2], span),
    ensures
        checked_errors(a, c, b, types, seq![c1, c2], span),
{
    reveal_with_fuel(checked_errors, 2);
    assert(seq![c1, c2].drop_last() =~= seq![c1]);
    assert(seq![c2].drop_last() =~= Seq::<(usize, usize)>::empty());
    assert(seq![c1, c2].last() == c2);
}

/// A variable in scope: its name, the depth of the scope it was declared
/// in, and its type.
#[derive(Clone, Copy, Debug)]
pub struct Variable<'s> {
    pub name: &'s str,
    pub depth: u8,
    pub type_: usize,
}

/// The index of the variable that `name` refers to: the last one declared
/// with that name.
pub open spec fn lookup_index(vars: Seq<Variable>, name: Seq<char>) -> int
    decreases vars.len(),
{
    if vars.len() == 0 {
        -1
    } else if vars[vars.len() - 1].name@ == name {
        vars.len() - 1
    } else {
        lookup_index(vars.subrange(0, vars.len() - 1), name)
    }
}

proof fn lemma_lookup_index(vars: Seq<Variable>, name: Seq<char>)
    ensures
        -1 <= lookup_index(vars, name) < vars.len(),
        lookup_index(vars, name) >= 0 ==> vars[lookup_index(vars, name)].name@ == name,
    decreases vars.len(),
{
    if vars.len() > 0 && vars[vars.len() - 1].name@ != name {
        let p = vars.subrange(0, vars.len() - 1);
        lemma_lookup_index(p, name);
        if lookup_index(p, name) >= 0 {
            assert(vars[lookup_index(p, name)] == p[lookup_index(p, name)]);
        }
    }
}

struct Typechecker<'s> {
    source: &'s str,
    function_stack: Vec<usize>,
    variables: Vec<Variable<'s>>,
    scope_depth: u8,
    types: Vec<Type>,
    errors: Vec<Diagnostic>,
}

impl<'s> Typechecker<'s> {
    spec fn b(&self) -> Seq<u8> {
        bytes_of(self.source)
    }

    /// The types are a good table, every variable and every function on
    /// the stack names a type in it, and no variable is deeper than the
    /// current scope.
    spec fn inv(&self) -> bool {
        &&& table_ok(self.types@)
        &&& lines_fit(self.b())
        &&& forall|i: int|
            0 <= i < self.errors@.len() ==> checked_diagnostic(#[trigger] self.errors@[i], self.b())
        &&& forall|i: int|
            0 <= i < self.variables@.len() ==> (#[trigger] self.variables@[i]).type_
                < self.types@.len() && self.variables@[i].depth <= self.scope_depth
        &&& forall|i: int|
            0 <= i < self.function_stack@.len() ==> #[trigger] self.function_stack@[i]
                < self.types@.len()
    }

    /// The room left for scopes.
    spec fn room(&self) -> nat {
        (max_room() - self.scope_depth) as nat
    }

    /// `after` follows `self`: the table and the errors have only grown.
    spec fn grown(&self, after: &Typechecker<'s>) -> bool {
        &&& after.inv()
        &&& after.source == self.source
        &&& self.types@.len() <= after.types@.len()
        &&& after.types@.subrange(0, self.types@.len() as int) == self.types@
        &&& self.errors@.len() <= after.errors@.len()
        &&& after.errors@.subrange(0, self.errors@.len() as int) == self.errors@
    }

    /// `after` follows `self` with the same scopes.
    spec fn same_scopes(&self, after: &Typechecker<'s>) -> bool {
        &&& self.grown(after)
        &&& after.variables@ == self.variables@
        &&& after.scope_depth == self.scope_depth
        &&& after.function_stack@ == self.function_stack@
    }

    /// `after` follows `self`, and the variables it added are in the current
    /// scope.
    spec fn declared_more(&self, after: &Typechecker<'s>) -> bool {
        &&& self.grown(after)
        &&& after.scope_depth == self.scope_depth
        &&& after.function_stack@ == self.function_stack@
        &&& self.variables@.len() <= after.variables@.len()
        &&& after.variables@.subrange(0, self.variables@.len() as int) == self.variables@
        &&& forall|i: int|
            self.variables@.len() <= i < after.variables@.len() ==> (#[trigger] after.variables@[i]).depth
                == self.scope_depth
    }

    fn new(source: &'s str) -> (r: Typechecker<'s>)
        requires
            lines_fit(bytes_of(source)),
        ensures
            r.inv(),
            r.source == source,
            r.scope_depth == 0,
            r.function_stack@.len() == 0,
            r.errors@.len() == 0,
            r.variables@.len() == 2,
            r.variables@[0].name@ == "print"@,
            r.variables@[1].name@ == "type"@,
            r.types@.len() == 11,
            r.types@[9] matches Type::Function(ret, params) && ret == NULL && params@ == seq![ANY],
            r.types@[10] matches Type::Function(ret, params) && ret == STRING && params@ == seq![ANY],
            r.variables@[0].type_ == 9,
            r.variables@[1].type_ == 10,
            initial_table(r.types@),
            initial_variables(r.variables@),
    {
        let mut checker = Typechecker {
            source,
            variables: Vec::new(),
            function_stack: Vec::new(),
            scope_depth: 0,
            errors: Vec::new(),
            types: builtin_types(),
        };
        checker.define_globals();
        checker
    }

    /// `print` takes anything and gives `null`; `type` takes anything and
    /// gives a string.
    fn define_globals(&mut self)
        requires
            old(self).inv(),
            old(self).types@.len() == 9,
            old(self).variables@.len() == 0,
            old(self).scope_depth == 0,
        ensures
            final(self).inv(),
            final(self).source == old(self).source,
            final(self).scope_depth == 0,
            final(self).function_stack@ == old(self).function_stack@,
            final(self).errors@ == old(self).errors@,
            final(self).variables@.len() == 2,
            final(self).variables@[0].name@ == "print"@,
            final(self).variables@[1].name@ == "type"@,
            final(self).types@.len() == 11,
            final(self).types@[9] matches Type::Function(ret, params) && ret == NULL && params@
                == seq![ANY],
            final(self).types@[10] matches Type::Function(ret, params) && ret == STRING && params@
                == seq![ANY],
            final(self).variables@[0].type_ == 9,
            final(self).variables@[1].type_ == 10,
            final(self).variables@[0].depth == 0,
            final(self).variables@[1].depth == 0,
            forall|k: int| 0 <= k < 9 ==> final(self).types@[k] == old(self).types@[k],
    {
        let mut any: Vec<usize> = Vec::new();
        any.push(ANY);
        let print = add_type(&mut self.types, Type::Function(NULL, any));
        let mut any: Vec<usize> = Vec::new();
        any.push(ANY);
        let type_ = add_type(&mut self.types, Type::Function(STRING, any));
        self.define("print", print);
        self.define("type", type_);
        proof {
            reveal_strlit("print");
            reveal_strlit("type");
        }
    }

    fn begin_scope(&mut self)
        requires
            old(self).inv(),
            old(self).scope_depth < 255,
        ensures
            final(self).inv(),
            final(self).scope_depth == old(self).scope_depth + 1,
            final(self).types@ == old(self).types@,
            final(self).errors@ == old(self).errors@,
            final(self).variables@ == old(self).variables@,
            final(self).function_stack@ == old(self).function_stack@,
            final(self).source == old(self).source,
    {
        self.scope_depth = self.scope_depth + 1;
    }

    /// Leaves the current scope, forgetting its variables.
    fn end_scope(&mut self, Ghost(kept): Ghost<int>)
        requires
            old(self).inv(),
            old(self).scope_depth > 0,
            0 <= kept <= old(self).variables@.len(),
            forall|i: int| 0 <= i < kept ==> #[trigger] old(self).variables@[i].depth < old(self).scope_depth,
            forall|i: int| kept <= i < old(self).variables@.len() ==> #[trigger] old(self).variables@[i].depth == old(self).scope_depth,
        ensures
            final(self).inv(),
            final(self).scope_depth == old(self).scope_depth - 1,
            final(self).types@ == old(self).types@,
            final(self).errors@ == old(self).errors@,
            final(self).variables@ == old(self).variables@.subrange(0, kept),
            final(self).function_stack@ == old(self).function_stack@,
            final(self).source == old(self).source,
    {
        loop
            invariant
                table_ok(self.types@),
                self.types@ == old(self).types@,
                self.errors@ == old(self).errors@,
                self.function_stack@ == old(self).function_stack@,
                self.source == old(self).source,
                self.scope_depth == old(self).scope_depth,
                kept <= self.variables@.len() <= old(self).variables@.len(),
                self.variables@ == old(self).variables@.subrange(0, self.variables@.len() as int),
                0 <= kept <= old(self).variables@.len(),
                forall|i: int| 0 <= i < kept ==> #[trigger] old(self).variables@[i].depth < old(self).scope_depth,
                forall|i: int| kept <= i < old(self).variables@.len() ==> #[trigger] old(self).variables@[i].depth == old(self).scope_depth,
            ensures
                self.variables@ == old(self).variables@.subrange(0, kept),
                self.types@ == old(self).types@,
                self.errors@ == old(self).errors@,
                self.function_stack@ == old(self).function_stack@,
                self.source == old(self).source,
                self.scope_depth == old(self).scope_depth,
            decreases self.variables@.len(),
        {
            let n = self.variables.len();
            if n == 0 {
                assert(self.variables@ =~= old(self).variables@.subrange(0, kept));
                break ;
            }
            if self.variables[n - 1].depth != self.scope_depth {
                assert(old(self).variables@[n - 1] == self.variables@[n - 1]);
                assert(self.variables@ =~= old(self).variables@.subrange(0, kept));
                break ;
            }
            assert(old(self).variables@[n - 1] == self.variables@[n - 1]);
            self.variables.pop();
            assert(self.variables@ =~= old(self).variables@.subrange(0, self.variables@.len() as int));
        }
        self.scope_depth = self.scope_depth - 1;
    }

    fn define(&mut self, name: &'s str, type_: usize)
        requires
            old(self).inv(),
            type_ < old(self).types@.len(),
        ensures
            final(self).inv(),
            final(self).variables@ == old(self).variables@.push(
                Variable { name, depth: old(self).scope_depth, type_ },
            ),
            final(self).types@ == old(self).types@,
            final(self).errors@ == old(self).errors@,
            final(self).function_stack@ == old(self).function_stack@,
            final(self).scope_depth == old(self).scope_depth,
            final(self).source == old(self).source,
    {
        self.variables.push(Variable { name, depth: self.scope_depth, type_ });
    }

    /// The type of the variable that `name` refers to, if one does.
    fn lookup(&self, name: &str) -> (r: Option<usize>)
        requires
            self.inv(),
        ensures
            ({
                let i = lookup_index(self.variables@, name@);
                r == if i >= 0 {
                    Some(self.variables@[i].type_)
                } else {
                    None
                }
            }),
            r matches Some(t) ==> t < self.types@.len(),
    {
        proof {
            lemma_lookup_index(self.variables@, name@);
        }
        let mut i = self.variables.len();
        assert(self.variables@.subrange(0, i as int) =~= self.variables@);
        while i > 0
            invariant
                self.inv(),
                i <= self.variables@.len(),
                lookup_index(self.variables@, name@) == lookup_index(
                    self.variables@.subrange(0, i as int),
                    name@,
                ),
            decreases i,
        {
            let ghost p = self.variables@.subrange(0, i as int);
            assert(p.subrange(0, i - 1) =~= self.variables@.subrange(0, i - 1));
            if same_chars(self.variables[i - 1].name, name) {
                return Some(self.variables[i - 1].type_);
            }
            i = i - 1;
        }
        None
    }

    /// Records an error on the line where `span` starts; the `never` type.
    fn error(&mut self, error: Error, message: String, span: Span) -> (r: usize)
        requires
            old(self).inv(),
        ensures
            old(self).same_scopes(final(self)),
            final(self).types@ == old(self).types@,
            final(self).errors@.len() == old(self).errors@.len() + 1,
            is_diagnostic(
                final(self).errors@[old(self).errors@.len() as int],
                old(self).b(),
                error.spec_title(),
                message@,
                span,
            ),
            r == NEVER,
    {
        let line = span.get_line_number(self.source);
        let mut lines: Vec<LineNumber> = Vec::new();
        lines.push(line);
        let title = String::from_str(error.get_title());
        self.errors.push(Diagnostic { title, message, lines });
        proof {
            let b = self.b();
            let at = if span.start < b.len() {
                span.start + 1
            } else {
                b.len() as int
            };
            lemma_count_newlines_split(b, 0, at, b.len() as int);
            lemma_count_newlines(b, at, b.len() as int);
            lemma_count_newlines(b, 0, at);
            assert(checked_diagnostic(self.errors@[old(self).errors@.len() as int], b));
            assert(self.inv());
            assert(lines@ =~= seq![line]);
            assert(self.errors@.subrange(0, old(self).errors@.len() as int) =~= old(self).errors@);
            assert(self.types@.subrange(0, old(self).types@.len() as int) =~= old(self).types@);
        }
        NEVER
    }

    /// Records an error when `got` does not match `expected`.
    fn assert_type(&mut self, got: usize, expected: usize, span: Span)
        requires
            old(self).inv(),
            got < old(self).types@.len(),
            expected < old(self).types@.len(),
        ensures
            old(self).same_scopes(final(self)),
            final(self).types@ == old(self).types@,
            fits(old(self).types@, got as nat, expected as nat) ==> final(self).errors@
                == old(self).errors@,
            !fits(old(self).types@, got as nat, expected as nat) ==> final(self).errors@.len()
                == old(self).errors@.len() + 1 && is_diagnostic(
                final(self).errors@[old(self).errors@.len() as int],
                old(self).b(),
                "Expected Types to Match"@,
                "Expected type '"@ + name_of_type(old(self).types@, expected as nat)
                    + "' but received '"@ + name_of_type(old(self).types@, got as nat) + "'"@,
                span,
            ),
            checked_errors(old(self).errors@, final(self).errors@, old(self).b(), old(self).types@, seq![(got, expected)], span),
    {
        if !type_matches(&self.types, got, expected) {
            let got_type = type_name_text(&self.types, got);
            let expected_type = type_name_text(&self.types, expected);
            let mut message = String::from_str("Expected type '");
            message.append(expected_type.as_str());
            message.append("' but received '");
            message.append(got_type.as_str());
            message.append("'");
            self.error(Error::ExpectedType, message, span);
            proof {
                reveal_strlit("Expected Types to Match");
                assert(self.errors@.drop_last() =~= old(self).errors@);
                lemma_checked_one(old(self).errors@, self.errors@, old(self).b(), old(self).types@, (got, expected), span);
            }
        } else {
            proof {
                assert(self.errors@.subrange(0, self.errors@.len() as int) =~= self.errors@);
                assert(self.types@.subrange(0, self.types@.len() as int) =~= self.types@);
                lemma_checked_one(old(self).errors@, self.errors@, old(self).b(), old(self).types@, (got, expected), span);
            }
        }
    }
}

proof fn lemma_grown_trans<'s>(a: &Typechecker<'s>, b: &Typechecker<'s>, c: &Typechecker<'s>)
    requires
        a.grown(b),
        b.grown(c),
    ensures
        a.grown(c),
{
    assert(c.types@.subrange(0, a.types@.len() as int) =~= b.types@.subrange(0, a.types@.len() as int));
    assert(c.errors@.subrange(0, a.errors@.len() as int) =~= b.errors@.subrange(0, a.errors@.len() as int));
}

proof fn lemma_declared_more_trans<'s>(a: &Typechecker<'s>, b: &Typechecker<'s>, c: &Typechecker<'s>)
    requires
        a.declared_more(b),
        b.declared_more(c),
    ensures
        a.declared_more(c),
{
    lemma_grown_trans(a, b, c);
    assert(c.variables@.subrange(0, a.variables@.len() as int) =~= b.variables@.subrange(
        0,
        a.variables@.len() as int,
    ));
    assert forall|i: int| a.variables@.len() <= i < c.variables@.len() implies (
    #[trigger] c.variables@[i]).depth == a.scope_depth by {
        if i < b.variables@.len() {
            assert(c.variables@[i] == c.variables@.subrange(0, b.variables@.len() as int)[i]);
        }
    }
}

proof fn lemma_same_scopes_is_declared_more<'s>(a: &Typechecker<'s>, b: &Typechecker<'s>)
    requires
        a.same_scopes(b),
    ensures
        a.declared_more(b),
{
    assert(b.variables@.subrange(0, a.variables@.len() as int) =~= a.variables@);
}

proof fn lemma_same_scopes_trans<'s>(a: &Typechecker<'s>, b: &Typechecker<'s>, c: &Typechecker<'s>)
    requires
        a.same_scopes(b),
        b.same_scopes(c),
    ensures
        a.same_scopes(c),
{
    lemma_grown_trans(a, b, c);
}

/// After `begin_scope` at `entry`, the variables declared since are the
/// ones `end_scope` forgets.
proof fn lemma_scope_end<'s>(entry: &Typechecker<'s>, opened: &Typechecker<'s>, now: &Typechecker<'s>)
    requires
        entry.inv(),
        opened.variables@ == entry.variables@,
        opened.scope_depth == entry.scope_depth + 1,
        opened.declared_more(now),
    ensures
        forall|i: int| 0 <= i < entry.variables@.len() ==> #[trigger] now.variables@[i].depth < now.scope_depth,
        forall|i: int| entry.variables@.len() <= i < now.variables@.len() ==> #[trigger] now.variables@[i].depth == now.scope_depth,
        now.variables@.subrange(0, entry.variables@.len() as int) == entry.variables@,
{
    assert forall|i: int| 0 <= i < entry.variables@.len() implies #[trigger] now.variables@[i].depth < now.scope_depth by {
        assert(now.variables@[i] == now.variables@.subrange(0, entry.variables@.len() as int)[i]);
        assert(entry.variables@[i].depth <= entry.scope_depth);
    }
}

proof fn lemma_grown_refl<'s>(a: &Typechecker<'s>)
    requires
        a.inv(),
    ensures
        a.same_scopes(a),
{
    assert(a.types@.subrange(0, a.types@.len() as int) =~= a.types@);
    assert(a.errors@.subrange(0, a.errors@.len() as int) =~= a.errors@);
}

impl<'s> Typechecker<'s> {
    /// The type that an annotation names.
    fn type_from_annotation(&mut self, t: &TypeExpression) -> (r: usize)
        requires
            old(self).inv(),
        ensures
            old(self).same_scopes(final(self)),
            r < final(self).types@.len(),
            t.type_ matches TypeItem::Named(n) ==> (named_type(n@) is Some ==> r == named_type(n@).unwrap() && final(self).errors@ == old(self).errors@ && final(self).types@ == old(self).types@),
        decreases t,
    {
        let ghost entry = *self;
        proof {
            lemma_grown_refl(self);
        }
        match &t.type_ {
            TypeItem::Named(name) => {
                proof {
                    reveal_strlit("string");
                    reveal_strlit("number");
                    reveal_strlit("boolean");
                    reveal_strlit("null");
                    reveal_strlit("false");
                    reveal_strlit("true");
                    reveal_strlit("any");
                }
                if same_chars(name, "string") {
                    STRING
                } else if same_chars(name, "number") {
                    NUMBER
                } else if same_chars(name, "boolean") {
                    BOOLEAN
                } else if same_chars(name, "null") {
                    NULL
                } else if same_chars(name, "false") {
                    FALSE
                } else if same_chars(name, "true") {
                    TRUE
                } else if same_chars(name, "any") {
                    ANY
                } else {
                    let mut message = String::from_str("Unknown type ");
                    message.append(name);
                    self.error(Error::UnknownType, message, t.span)
                }
            },
            TypeItem::Union(a, b) => {
                let ta = self.type_from_annotation(a);
                let ghost mid = *self;
                let tb = self.type_from_annotation(b);
                proof {
                    lemma_same_scopes_trans(&entry, &mid, self);
                }
                let mut both: Vec<usize> = Vec::new();
                both.push(ta);
                both.push(tb);
                let ghost before = *self;
                let r = union_types(&mut self.types, &both);
                proof {
                    assert(self.types@.subrange(0, before.types@.len() as int) =~= before.types@) by {
                        if self.types@.len() > before.types@.len() {
                            assert(self.types@.subrange(0, before.types@.len() as int) == before.types@);
                        }
                    }
                    assert(self.errors@.subrange(0, before.errors@.len() as int) =~= before.errors@);
                    assert(before.same_scopes(self));
                    lemma_same_scopes_trans(&entry, &before, self);
                }
                r
            },
            TypeItem::Function(ret, parameters) => {
                let r = self.type_from_annotation(ret);
                let mut params: Vec<usize> = Vec::new();
                let mut i: usize = 0;
                while i < parameters.len()
                    invariant
                        entry.same_scopes(self),
                        t.type_ == TypeItem::Function(*ret, *parameters),
                        r < self.types@.len(),
                        i <= parameters@.len(),
                        forall|k: int| 0 <= k < params@.len() ==> #[trigger] params@[k] < self.types@.len(),
                    decreases parameters@.len() - i,
                {
                    let ghost before = *self;
                    proof {
                        assert(decreases_to!(t => t.type_));
                        assert(decreases_to!(t.type_ => t.type_->Function_1));
                        assert(decreases_to!(t.type_->Function_1 => t.type_->Function_1@));
                        assert(decreases_to!(t.type_->Function_1@ => t.type_->Function_1@[i as int]));
                    }
                    let p = self.type_from_annotation(&parameters[i]);
                    proof {
                        lemma_same_scopes_trans(&entry, &before, self);
                    }
                    params.push(p);
                    i = i + 1;
                }
                let ghost before = *self;
                let f = add_type(&mut self.types, Type::Function(r, params));
                proof {
                    assert(self.types@.subrange(0, before.types@.len() as int) =~= before.types@);
                    assert(self.errors@.subrange(0, before.errors@.len() as int) =~= before.errors@);
                    lemma_same_scopes_trans(&entry, &before, self);
                }
                f
            },
            TypeItem::Optional(inner) => {
                let ti = self.type_from_annotation(inner);
                let mut both: Vec<usize> = Vec::new();
                both.push(ti);
                both.push(NULL);
                let ghost before = *self;
                let r = union_types(&mut self.types, &both);
                proof {
                    assert(self.types@.subrange(0, before.types@.len() as int) =~= before.types@) by {
                        if self.types@.len() > before.types@.len() {
                            assert(self.types@.subrange(0, before.types@.len() as int) == before.types@);
                        }
                    }
                    assert(self.errors@.subrange(0, before.errors@.len() as int) =~= before.errors@);
                    lemma_same_scopes_trans(&entry, &before, self);
                }
                r
            },
            TypeItem::Group(inner) => self.type_from_annotation(inner),
            TypeItem::WithGeneric(_, inner) => self.type_from_annotation(inner),
            TypeItem::List(_) | TypeItem::Parameter(_, _) => ANY,
        }
    }
}

impl<'s> Typechecker<'s> {
    /// Resolves each expression in order; their types.
    fn resolve_all(&mut self, items: &Vec<Expression<'s>>) -> (r: Vec<usize>)
        requires
            old(self).inv(),
            exprs_ok(items@, old(self).room()),
        ensures
            old(self).same_scopes(final(self)),
            r@.len() == items@.len(),
            forall|k: int| 0 <= k < r@.len() ==> #[trigger] r@[k] < final(self).types@.len(),
        decreases items, 0nat,
    {
        let ghost entry = *self;
        proof {
            lemma_grown_refl(self);
        }
        let mut r: Vec<usize> = Vec::new();
        let mut i: usize = 0;
        while i < items.len()
            invariant
                entry.same_scopes(self),
                exprs_ok(items@, entry.room()),
                i <= items@.len(),
                r@.len() == i,
                forall|k: int| 0 <= k < r@.len() ==> #[trigger] r@[k] < self.types@.len(),
            decreases items@.len() - i,
        {
            proof {
                lemma_exprs_ok(items@, entry.room(), i as int);
            }
            let ghost before = *self;
            let t = self.resolve_expression(&items[i]);
            proof {
                lemma_same_scopes_trans(&entry, &before, self);
            }
            r.push(t);
            i = i + 1;
        }
        r
    }

    /// Resolves the keys and values of a dictionary.
    fn resolve_entries(&mut self, items: &Vec<(Expression<'s>, Expression<'s>)>)
        requires
            old(self).inv(),
            entries_ok(items@, old(self).room()),
        ensures
            old(self).same_scopes(final(self)),
        decreases items, 0nat,
    {
        let ghost entry = *self;
        proof {
            lemma_grown_refl(self);
        }
        let mut i: usize = 0;
        while i < items.len()
            invariant
                entry.same_scopes(self),
                entries_ok(items@, entry.room()),
                i <= items@.len(),
            decreases items@.len() - i,
        {
            proof {
                lemma_entries_ok(items@, entry.room(), i as int);
            }
            let ghost before = *self;
            let entry_ref = &items[i];
            self.resolve_expression(&entry_ref.0);
            let ghost mid = *self;
            self.resolve_expression(&entry_ref.1);
            proof {
                lemma_same_scopes_trans(&before, &mid, self);
                lemma_same_scopes_trans(&entry, &before, self);
            }
            i = i + 1;
        }
    }

    /// Grows the table by the union of two types.
    fn union_of_two(&mut self, a: usize, b: usize) -> (r: usize)
        requires
            old(self).inv(),
            a < old(self).types@.len(),
            b < old(self).types@.len(),
        ensures
            old(self).same_scopes(final(self)),
            r < final(self).types@.len(),
            counted(seq![a, b]).len() <= 1 ==> typed_as_list(old(self).types@, final(self).types@, counted(seq![a, b]), r),
            final(self).errors@ == old(self).errors@,
    {
        let mut both: Vec<usize> = Vec::new();
        both.push(a);
        both.push(b);
        assert(both@ =~= seq![a, b]);
        let ghost before = *self;
        let r = union_types(&mut self.types, &both);
        proof {
            assert(self.types@.subrange(0, before.types@.len() as int) =~= before.types@) by {
                if self.types@.len() > before.types@.len() {
                    assert(self.types@.subrange(0, before.types@.len() as int) == before.types@);
                }
            }
            assert(self.errors@.subrange(0, before.errors@.len() as int) =~= before.errors@);
        }
        r
    }

    /// Narrows `a` by `b`, growing the table when it takes a new union.
    fn narrow_type(&mut self, a: usize, b: usize) -> (r: usize)
        requires
            old(self).inv(),
            a < old(self).types@.len(),
            b < old(self).types@.len(),
        ensures
            old(self).same_scopes(final(self)),
            r < final(self).types@.len(),
            typed_as_list(old(self).types@, final(self).types@, narrowed(old(self).types@, a as nat, b as nat), r),
            final(self).errors@ == old(self).errors@,
    {
        let ghost before = *self;
        let r = narrow(&mut self.types, a, b);
        proof {
            assert(self.types@.subrange(0, before.types@.len() as int) =~= before.types@) by {
                if self.types@.len() > before.types@.len() {
                    assert(self.types@.subrange(0, before.types@.len() as int) == before.types@);
                }
            }
            assert(self.errors@.subrange(0, before.errors@.len() as int) =~= before.errors@);
        }
        r
    }

    /// An error for an undefined variable; `never`.
    fn unknown_variable(&mut self, name: &str, span: Span) -> (r: usize)
        requires
            old(self).inv(),
        ensures
            old(self).same_scopes(final(self)),
            final(self).types@ == old(self).types@,
            final(self).errors@.len() == old(self).errors@.len() + 1,
            is_diagnostic(
                final(self).errors@[old(self).errors@.len() as int],
                old(self).b(),
                "Unknown Variable"@,
                "Variable '"@ + name@ + "' is undefined"@,
                span,
            ),
            r == NEVER,
    {
        let mut message = String::from_str("Variable '");
        message.append(name);
        message.append("' is undefined");
        proof {
            reveal_strlit("Unknown Variable");
        }
        self.error(Error::UnknownVariable, message, span)
    }

    /// The type of a call of a value of type `callee` with arguments of the
    /// given types: the function's return type, after an error for each
    /// argument that does not fit; `never`, after an error, when the value
    /// is not a function or the number of arguments is wrong.
    fn call(&mut self, callee: usize, arguments: &Vec<usize>, span: Span) -> (r: usize)
        requires
            old(self).inv(),
            callee < old(self).types@.len(),
            forall|k: int| 0 <= k < arguments@.len() ==> #[trigger] arguments@[k] < old(self).types@.len(),
        ensures
            old(self).same_scopes(final(self)),
            final(self).types@ == old(self).types@,
            r < final(self).types@.len(),
            match old(self).types@[callee as int] {
                Type::Function(ret, params) => if params@.len() == arguments@.len() {
                    r == ret && checked_errors(
                        old(self).errors@,
                        final(self).errors@,
                        old(self).b(),
                        old(self).types@,
                        argument_checks(arguments@, params@),
                        span,
                    )
                } else {
                    r == NEVER && final(self).errors@.len() == old(self).errors@.len() + 1
                        && is_diagnostic(
                        final(self).errors@[old(self).errors@.len() as int],
                        old(self).b(),
                        "Wrong Number of Arguments"@,
                        "Expected "@ + decimal(params@.len()) + " arguments, got "@ + decimal(
                            arguments@.len(),
                        ),
                        span,
                    )
                },
                _ => r == NEVER && final(self).errors@.len() == old(self).errors@.len() + 1
                    && is_diagnostic(
                    final(self).errors@[old(self).errors@.len() as int],
                    old(self).b(),
                    "Type Not Callable"@,
                    "Type '"@ + name_of_type(old(self).types@, callee as nat) + "' is not callable"@,
                    span,
                ),
            },
    {
        let ghost entry = *self;
        proof {
            lemma_grown_refl(self);
            assert(types::refers_below(self.types@[callee as int], callee as int));
        }
        let mut ret: usize = NEVER;
        let mut params: Vec<usize> = Vec::new();
        let mut callable = false;
        match &self.types[callee] {
            Type::Function(r, ps) => {
                ret = *r;
                callable = true;
                let mut i: usize = 0;
                while i < ps.len()
                    invariant
                        i <= ps@.len(),
                        params@ == ps@.subrange(0, i as int),
                    decreases ps@.len() - i,
                {
                    params.push(ps[i]);
                    i = i + 1;
                }
                assert(params@ =~= ps@);
            },
            _ => {},
        }
        if !callable {
            let callee_name = type_name_text(&self.types, callee);
            let mut message = String::from_str("Type '");
            message.append(callee_name.as_str());
            message.append("' is not callable");
            proof {
                reveal_strlit("Type Not Callable");
            }
            return self.error(Error::NotCallable, message, span);
        }
        if params.len() != arguments.len() {
            let mut message = String::from_str("Expected ");
            write_decimal(&mut message, params.len());
            message.append(" arguments, got ");
            write_decimal(&mut message, arguments.len());
            proof {
                reveal_strlit("Wrong Number of Arguments");
            }
            return self.error(Error::WrongNumberArguments, message, span);
        }
        let mut i: usize = 0;
        while i < arguments.len()
            invariant
                entry.same_scopes(self),
                self.types@ == entry.types@,
                params@.len() == arguments@.len(),
                forall|k: int| 0 <= k < params@.len() ==> #[trigger] params@[k] < entry.types@.len(),
                forall|k: int| 0 <= k < arguments@.len() ==> #[trigger] arguments@[k] < entry.types@.len(),
                i <= arguments@.len(),
                checked_errors(entry.errors@, self.errors@, entry.b(), entry.types@, argument_checks(arguments@, params@).subrange(0, i as int), span),
            decreases arguments@.len() - i,
        {
            let ghost before = *self;
            self.assert_type(arguments[i], params[i], span);
            proof {
                lemma_same_scopes_trans(&entry, &before, self);
                let all = argument_checks(arguments@, params@);
                assert(all.subrange(0, i + 1) =~= all.subrange(0, i as int).push((arguments@[i as int], params@[i as int])));
                lemma_checked_push(entry.errors@, before.errors@, self.errors@, entry.b(), entry.types@, all.subrange(0, i as int), (arguments@[i as int], params@[i as int]), span);
            }
            i = i + 1;
        }
        proof {
            assert(argument_checks(arguments@, params@).subrange(0, arguments@.len() as int) =~= argument_checks(arguments@, params@));
        }
        ret
    }

    /// `left >> right`: a call of `right` with `left` as its first argument
    /// (when `right` is a call, its own arguments follow).
    fn pipeline(&mut self, e: &Expression<'s>) -> (r: usize)
        requires
            old(self).inv(),
            expr_ok(*e, old(self).room()),
            e.expr matches Expr::Binary { operator: BinaryOperator::Pipeline, .. },
        ensures
            old(self).same_scopes(final(self)),
            r < final(self).types@.len(),
        decreases e, 1nat,
    {
        let ghost entry = *self;
        match &e.expr {
            Expr::Binary { left, right, .. } => {
                let right_inner: &Expression<'s> = match &right.expr {
                    Expr::Comment { expression, .. } => expression,
                    _ => right,
                };
                proof {
                    assert(decreases_to!(*e => *right_inner));
                    assert(expr_ok(**right, entry.room()));
                    if right.expr is Comment {
                        assert(*right_inner == *right.expr->Comment_expression);
                    }
                    assert(expr_ok(*right_inner, entry.room()));
                }
                match &right_inner.expr {
                    Expr::Call { expression, arguments } => {
                        let callee = self.resolve_expression(expression);
                        let ghost a = *self;
                        let rest = self.resolve_all(arguments);
                        let ghost b = *self;
                        let first = self.resolve_expression(left);
                        proof {
                            lemma_same_scopes_trans(&entry, &a, &b);
                            lemma_same_scopes_trans(&entry, &b, self);
                        }
                        let mut all: Vec<usize> = Vec::new();
                        all.push(first);
                        let mut i: usize = 0;
                        while i < rest.len()
                            invariant
                                i <= rest@.len(),
                                all@.len() == i + 1,
                                forall|k: int| 0 <= k < rest@.len() ==> #[trigger] rest@[k] < self.types@.len(),
                                forall|k: int| 0 <= k < all@.len() ==> #[trigger] all@[k] < self.types@.len(),
                            decreases rest@.len() - i,
                        {
                            all.push(rest[i]);
                            i = i + 1;
                        }
                        let ghost c = *self;
                        let r = self.call(callee, &all, right_inner.span);
                        proof {
                            lemma_same_scopes_trans(&entry, &c, self);
                        }
                        r
                    },
                    _ => {
                        let callee = self.resolve_expression(right_inner);
                        let ghost a = *self;
                        let first = self.resolve_expression(left);
                        let mut all: Vec<usize> = Vec::new();
                        all.push(first);
                        let ghost c = *self;
                        let r = self.call(callee, &all, right_inner.span);
                        proof {
                            lemma_same_scopes_trans(&entry, &a, &c);
                            lemma_same_scopes_trans(&entry, &c, self);
                        }
                        r
                    },
                }
            },
            _ => NEVER,
        }
    }

    /// The type of an expression; errors for what does not fit.
    fn resolve_expression(&mut self, e: &Expression<'s>) -> (r: usize)
        requires
            old(self).inv(),
            expr_ok(*e, old(self).room()),
        ensures
            old(self).same_scopes(final(self)),
            r < final(self).types@.len(),
            e.expr is Literal ==> r == match e.expr->type_ {
                LiteralType::String => STRING,
                LiteralType::Number => NUMBER,
                LiteralType::True => TRUE,
                LiteralType::False => FALSE,
                LiteralType::Null => NULL,
            },
            e.expr matches Expr::Variable { name } ==> (lookup_index(old(self).variables@, name@) < 0 ==> final(self).errors@.len() == old(self).errors@.len() + 1 && is_diagnostic(final(self).errors@[old(self).errors@.len() as int], old(self).b(), "Unknown Variable"@, "Variable '"@ + name@ + "' is undefined"@, e.span)),
            e.expr matches Expr::Variable { name } ==> (lookup_index(old(self).variables@, name@) < 0 ==> r == NEVER),
            e.expr matches Expr::Variable { name } ==> (lookup_index(old(self).variables@, name@) >= 0 ==> r == old(self).variables@[lookup_index(old(self).variables@, name@)].type_ && final(self).errors@ == old(self).errors@),
            e.expr matches Expr::Binary { operator, .. } ==> (operator == BinaryOperator::Minus || operator == BinaryOperator::Multiply || operator == BinaryOperator::Divide ==> r == NUMBER),
            e.expr matches Expr::Binary { operator, .. } ==> (operator == BinaryOperator::Equal || operator == BinaryOperator::NotEqual || operator == BinaryOperator::Greater || operator == BinaryOperator::Less || operator == BinaryOperator::GreaterEqual || operator == BinaryOperator::LessEqual ==> r == BOOLEAN),
            e.expr matches Expr::Unary { operator, .. } ==> (operator == UnaryOperator::Minus ==> r == NUMBER),
            operand_checks(old(self).types@, old(self).variables@, *e) is Some ==> r == operand_checks(old(self).types@, old(self).variables@, *e).unwrap().0 && final(self).types@ == old(self).types@ && check_errors(old(self).errors@, final(self).errors@, old(self).b(), old(self).types@, operand_checks(old(self).types@, old(self).variables@, *e).unwrap().1),
            operand_type(old(self).variables@, *e) is Some ==> r == operand_type(old(self).variables@, *e).unwrap() && final(self).errors@ == old(self).errors@ && final(self).types@ == old(self).types@,
            e.expr matches Expr::Binary { operator, left, right } ==> ((operator == BinaryOperator::Minus || operator == BinaryOperator::Multiply || operator == BinaryOperator::Divide) && operand_type(old(self).variables@, *left) is Some && operand_type(old(self).variables@, *right) is Some ==> final(self).types@ == old(self).types@ && checked_errors(old(self).errors@, final(self).errors@, old(self).b(), old(self).types@, seq![(operand_type(old(self).variables@, *left).unwrap(), NUMBER), (operand_type(old(self).variables@, *right).unwrap(), NUMBER)], e.span)),
            e.expr matches Expr::Binary { operator, left, right } ==> ((operator == BinaryOperator::Plus || operator == BinaryOperator::Greater || operator == BinaryOperator::Less || operator == BinaryOperator::GreaterEqual || operator == BinaryOperator::LessEqual) && operand_type(old(self).variables@, *left) is Some && operand_type(old(self).variables@, *right) is Some ==> final(self).types@ == old(self).types@ && checked_errors(old(self).errors@, final(self).errors@, old(self).b(), old(self).types@, seq![(operand_type(old(self).variables@, *left).unwrap(), NUMBER_OR_STRING), (operand_type(old(self).variables@, *right).unwrap(), operand_type(old(self).variables@, *left).unwrap())], e.span)),
            e.expr matches Expr::Binary { operator, left, right } ==> (operator == BinaryOperator::Plus && operand_type(old(self).variables@, *left) is Some && operand_type(old(self).variables@, *right) is Some ==> r == operand_type(old(self).variables@, *left).unwrap()),
            e.expr matches Expr::Binary { operator, left, right } ==> ((operator == BinaryOperator::Equal || operator == BinaryOperator::NotEqual) && operand_type(old(self).variables@, *left) is Some && operand_type(old(self).variables@, *right) is Some ==> final(self).types@ == old(self).types@ && checked_errors(old(self).errors@, final(self).errors@, old(self).b(), old(self).types@, seq![(operand_type(old(self).variables@, *right).unwrap(), operand_type(old(self).variables@, *left).unwrap())], e.span)),
            e.expr matches Expr::Unary { operator, expression } ==> (operator == UnaryOperator::Minus && operand_type(old(self).variables@, *expression) is Some ==> final(self).types@ == old(self).types@ && checked_errors(old(self).errors@, final(self).errors@, old(self).b(), old(self).types@, seq![(operand_type(old(self).variables@, *expression).unwrap(), NUMBER)], e.span)),
        decreases e, 2nat,
    {
        let ghost entry = *self;
        proof {
            lemma_grown_refl(self);
        }
        let span = e.span;
        match &e.expr {
            Expr::Literal { type_, .. } => match type_ {
                LiteralType::String => STRING,
                LiteralType::Number => NUMBER,
                LiteralType::True => TRUE,
                LiteralType::False => FALSE,
                LiteralType::Null => NULL,
            },
            Expr::Group { expression } => self.resolve_expression(expression),
            Expr::Comment { expression, .. } => self.resolve_expression(expression),
            Expr::Unary { operator, expression } => {
                let t = self.resolve_expression(expression);
                match operator {
                    UnaryOperator::Minus => {
                        let ghost a = *self;
                        self.assert_type(t, NUMBER, span);
                        proof {
                            lemma_same_scopes_trans(&entry, &a, self);
                            if operand_checks(entry.types@, entry.variables@, **expression) is Some {
                                lemma_then_one(entry.errors@, a.errors@, self.errors@, entry.b(), entry.types@, operand_checks(entry.types@, entry.variables@, **expression).unwrap().1, t, NUMBER, span);
                            }
                        }
                        NUMBER
                    },
                    UnaryOperator::Not => {
                        if type_is_truthy(&self.types, t) {
                            FALSE
                        } else if type_is_falsy(&self.types, t) {
                            TRUE
                        } else {
                            BOOLEAN
                        }
                    },
                }
            },
            Expr::Binary { operator, left, right } => {
                if let BinaryOperator::Pipeline = operator {
                    return self.pipeline(e);
                }
                let l = self.resolve_expression(left);
                let ghost a = *self;
                let r = self.resolve_expression(right);
                proof {
                    lemma_same_scopes_trans(&entry, &a, self);
                }
                let ghost b = *self;
                proof {
                    lemma_grown_refl(&b);
                    if operand_checks(entry.types@, entry.variables@, **left) is Some && operand_checks(entry.types@, entry.variables@, **right) is Some {
                        lemma_operands_then(entry.errors@, a.errors@, b.errors@, entry.b(), entry.types@, operand_checks(entry.types@, entry.variables@, **left).unwrap().1, operand_checks(entry.types@, entry.variables@, **right).unwrap().1);
                    }
                }
                let ghost both = if operand_checks(entry.types@, entry.variables@, **left) is Some && operand_checks(entry.types@, entry.variables@, **right) is Some {
                    operand_checks(entry.types@, entry.variables@, **left).unwrap().1 + operand_checks(entry.types@, entry.variables@, **right).unwrap().1
                } else {
                    Seq::empty()
                };
                let result = match operator {
                    BinaryOperator::Plus => {
                        self.assert_type(l, NUMBER_OR_STRING, span);
                        let ghost c = *self;
                        self.assert_type(r, l, span);
                        proof {
                            lemma_same_scopes_trans(&b, &c, self);
                            lemma_checked_two(b.errors@, c.errors@, self.errors@, b.b(), b.types@, (l, NUMBER_OR_STRING), (r, l), span);
                            if operand_checks(entry.types@, entry.variables@, **left) is Some && operand_checks(entry.types@, entry.variables@, **right) is Some {
                                lemma_then_two(entry.errors@, b.errors@, c.errors@, self.errors@, entry.b(), entry.types@, both, (l, NUMBER_OR_STRING), (r, l), span);
                            }
                        }
                        l
                    },
                    BinaryOperator::Minus | BinaryOperator::Multiply | BinaryOperator::Divide => {
                        self.assert_type(l, NUMBER, span);
                        let ghost c = *self;
                        self.assert_type(r, NUMBER, span);
                        proof {
                            lemma_same_scopes_trans(&b, &c, self);
                            lemma_checked_two(b.errors@, c.errors@, self.errors@, b.b(), b.types@, (l, NUMBER), (r, NUMBER), span);
                            if operand_checks(entry.types@, entry.variables@, **left) is Some && operand_checks(entry.types@, entry.variables@, **right) is Some {
                                lemma_then_two(entry.errors@, b.errors@, c.errors@, self.errors@, entry.b(), entry.types@, both, (l, NUMBER), (r, NUMBER), span);
                            }
                        }
                        NUMBER
                    },
                    BinaryOperator::Equal | BinaryOperator::NotEqual => {
                        self.assert_type(r, l, span);
                        proof {
                            if operand_checks(entry.types@, entry.variables@, **left) is Some && operand_checks(entry.types@, entry.variables@, **right) is Some {
                                lemma_then_one(entry.errors@, b.errors@, self.errors@, entry.b(), entry.types@, both, r, l, span);
                            }
                        }
                        BOOLEAN
                    },
                    BinaryOperator::Greater | BinaryOperator::Less | BinaryOperator::GreaterEqual
                    | BinaryOperator::LessEqual => {
                        self.assert_type(l, NUMBER_OR_STRING, span);
                        let ghost c = *self;
                        self.assert_type(r, l, span);
                        proof {
                            lemma_same_scopes_trans(&b, &c, self);
                            lemma_checked_two(b.errors@, c.errors@, self.errors@, b.b(), b.types@, (l, NUMBER_OR_STRING), (r, l), span);
                            if operand_checks(entry.types@, entry.variables@, **left) is Some && operand_checks(entry.types@, entry.variables@, **right) is Some {
                                lemma_then_two(entry.errors@, b.errors@, c.errors@, self.errors@, entry.b(), entry.types@, both, (l, NUMBER_OR_STRING), (r, l), span);
                            }
                        }
                        BOOLEAN
                    },
                    BinaryOperator::And => {
                        if type_is_falsy(&self.types, l) {
                            l
                        } else if type_is_truthy(&self.types, l) {
                            r
                        } else {
                            self.union_of_two(l, r)
                        }
                    },
                    BinaryOperator::Or => {
                        if type_is_falsy(&self.types, l) {
                            r
                        } else if type_is_truthy(&self.types, l) {
                            l
                        } else {
                            self.union_of_two(l, r)
                        }
                    },
                    BinaryOperator::Nullish => {
                        if type_matches(&self.types, NULL, l) {
                            let narrowed = self.narrow_type(l, NULL);
                            let ghost c = *self;
                            let u = self.union_of_two(narrowed, r);
                            proof {
                                lemma_same_scopes_trans(&b, &c, self);
                                if l == NULL {
                                    lemma_null_narrows_to_never(b.types@);
                                    lemma_never_joins_nothing(r);
                                }
                            }
                            u
                        } else {
                            l
                        }
                    },
                    BinaryOperator::Pipeline => NEVER,
                };
                proof {
                    lemma_same_scopes_trans(&entry, &b, self);
                }
                result
            },
            Expr::Assignment { identifier, expression } => {
                let t = self.resolve_expression(expression);
                let ghost a = *self;
                proof {
                    lemma_grown_refl(&a);
                }
                let variable_type = match self.lookup(identifier) {
                    Some(v) => v,
                    None => self.unknown_variable(identifier, span),
                };
                let ghost b = *self;
                proof {
                    lemma_grown_refl(&b);
                }
                if variable_type != NEVER {
                    self.assert_type(t, variable_type, span);
                }
                proof {
                    lemma_same_scopes_trans(&entry, &a, &b);
                    lemma_same_scopes_trans(&entry, &b, self);
                }
                variable_type
            },
            Expr::Variable { name } => {
                match self.lookup(name) {
                    Some(v) => v,
                    None => self.unknown_variable(name, span),
                }
            },
            Expr::Call { expression, arguments } => {
                let callee = self.resolve_expression(expression);
                let ghost a = *self;
                let types = self.resolve_all(arguments);
                let ghost b = *self;
                let r = self.call(callee, &types, span);
                proof {
                    lemma_same_scopes_trans(&entry, &a, &b);
                    lemma_same_scopes_trans(&entry, &b, self);
                }
                r
            },
            Expr::Function { parameters, return_type, body, name } => {
                self.resolve_function(e)
            },
            Expr::FormatString { expressions, .. } => {
                self.resolve_all(expressions);
                STRING
            },
            Expr::List { items } => {
                self.resolve_all(items);
                ANY
            },
            Expr::Dictionary { items } => {
                self.resolve_entries(items);
                ANY
            },
            Expr::Index { expression, index } => {
                self.resolve_expression(expression);
                let ghost a = *self;
                self.resolve_expression(index);
                proof {
                    lemma_same_scopes_trans(&entry, &a, self);
                }
                ANY
            },
            Expr::IndexAssignment { expression, index, value, .. } => {
                self.resolve_expression(expression);
                let ghost a = *self;
                self.resolve_expression(index);
                let ghost b = *self;
                self.resolve_expression(value);
                proof {
                    lemma_same_scopes_trans(&entry, &a, &b);
                    lemma_same_scopes_trans(&entry, &b, self);
                }
                ANY
            },
            Expr::ModuleAccess { .. } => ANY,
        }
    }

    /// A function: its parameters and its name are declared in a scope of
    /// its own, and its body is checked against its return type.
    fn resolve_function(&mut self, e: &Expression<'s>) -> (r: usize)
        requires
            old(self).inv(),
            expr_ok(*e, old(self).room()),
            e.expr is Function,
        ensures
            old(self).same_scopes(final(self)),
            r < final(self).types@.len(),
        decreases e, 1nat,
    {
        let ghost entry = *self;
        match &e.expr {
            Expr::Function { parameters, return_type, body, name } => {
                self.begin_scope();
                let ghost opened = *self;
                proof {
                    lemma_grown_refl(self);
                    lemma_same_scopes_is_declared_more(&opened, self);
                }
                let mut args: Vec<usize> = Vec::new();
                let mut i: usize = 0;
                while i < parameters.len()
                    invariant
                        opened.declared_more(self),
                        opened.scope_depth == entry.scope_depth + 1,
                        i <= parameters@.len(),
                        forall|k: int| 0 <= k < args@.len() ==> #[trigger] args@[k] < self.types@.len(),
                    decreases parameters@.len() - i,
                {
                    let ghost before = *self;
                    proof {
                        lemma_grown_refl(&before);
                    }
                    let t = match &parameters[i].type_ {
                        Some(annotation) => self.type_from_annotation(annotation),
                        None => ANY,
                    };
                    let ghost mid = *self;
                    self.define(parameters[i].name, t);
                    proof {
                        lemma_same_scopes_is_declared_more(&before, &mid);
                        assert(self.types@.subrange(0, mid.types@.len() as int) =~= mid.types@);
                        assert(self.errors@.subrange(0, mid.errors@.len() as int) =~= mid.errors@);
                        assert(self.variables@.subrange(0, mid.variables@.len() as int) =~= mid.variables@);
                        assert(mid.declared_more(self));
                        lemma_declared_more_trans(&before, &mid, self);
                        lemma_declared_more_trans(&opened, &before, self);
                    }
                    args.push(t);
                    i = i + 1;
                }
                let ghost before_return = *self;
                proof {
                    assert(stmt_ok(**body, (entry.room() - 1) as nat, true));
                    assert(self.room() == (entry.room() - 1) as nat);
                }
                let ret = match return_type {
                    Some(annotation) => self.type_from_annotation(annotation),
                    None => match &body.stmt {
                        Stmt::Return { expression: Some(value) } => {
                            self.resolve_expression(value)
                        },
                        _ => NULL,
                    },
                };
                proof {
                    if return_type is None && !(body.stmt matches Stmt::Return { expression: Some(_) }) {
                        lemma_grown_refl(self);
                    }
                    lemma_same_scopes_is_declared_more(&before_return, self);
                    lemma_declared_more_trans(&opened, &before_return, self);
                }
                let ghost before_add = *self;
                let function = add_type(&mut self.types, Type::Function(ret, args));
                proof {
                    assert(self.types@.subrange(0, before_add.types@.len() as int) =~= before_add.types@);
                    assert(self.errors@.subrange(0, before_add.errors@.len() as int) =~= before_add.errors@);
                    lemma_same_scopes_is_declared_more(&before_add, self);
                    lemma_declared_more_trans(&opened, &before_add, self);
                }
                match name {
                    Some(n) => {
                        let ghost before = *self;
                        self.define(n, function);
                        proof {
                            assert(self.types@.subrange(0, before.types@.len() as int) =~= before.types@);
                            assert(self.errors@.subrange(0, before.errors@.len() as int) =~= before.errors@);
                            assert(self.variables@.subrange(0, before.variables@.len() as int) =~= before.variables@);
                            lemma_declared_more_trans(&opened, &before, self);
                        }
                    },
                    None => {},
                }
                let ghost before_body = *self;
                self.function_stack.push(ret);
                proof {
                    assert(self.inv());
                }
                let ghost pushed = *self;
                self.resolve_statement(body);
                let ghost after_body = *self;
                self.function_stack.pop();
                proof {
                    assert(self.function_stack@ =~= before_body.function_stack@);
                    assert(self.inv());
                    assert(before_body.declared_more(self)) by {
                        assert(pushed.declared_more(&after_body));
                    }
                    lemma_declared_more_trans(&opened, &before_body, self);
                }
                let ghost before_end = *self;
                proof {
                    lemma_scope_end(&entry, &opened, self);
                }
                self.end_scope(Ghost(entry.variables@.len() as int));
                proof {
                    assert(self.variables@ =~= entry.variables@);
                    assert(self.types@.subrange(0, entry.types@.len() as int) =~= before_end.types@.subrange(0, entry.types@.len() as int));
                    assert(self.errors@.subrange(0, entry.errors@.len() as int) =~= before_end.errors@.subrange(0, entry.errors@.len() as int));
                }
                function
            },
            _ => NEVER,
        }
    }
}

impl<'s> Typechecker<'s> {
    /// Checks a statement in a scope of its own in which the restricted
    /// variables have their narrowed types.
    fn resolve_statement_with_restrictions(&mut self, s: &Statement<'s>, restrictions: &Vec<Restriction<'s>>)
        requires
            old(self).inv(),
            old(self).scope_depth < 255,
            stmt_ok(*s, (old(self).room() - 1) as nat, old(self).function_stack@.len() > 0),
            forall|k: int| 0 <= k < restrictions@.len() ==> #[trigger] restrictions@[k].1 < old(self).types@.len(),
        ensures
            old(self).same_scopes(final(self)),
        decreases s, 3nat,
    {
        let ghost entry = *self;
        self.begin_scope();
        let ghost opened = *self;
        proof {
            lemma_grown_refl(self);
            lemma_same_scopes_is_declared_more(&opened, self);
        }
        let mut i: usize = 0;
        while i < restrictions.len()
            invariant
                opened.declared_more(self),
                opened.scope_depth == entry.scope_depth + 1,
                opened.types@ == entry.types@,
                forall|k: int| 0 <= k < restrictions@.len() ==> #[trigger] restrictions@[k].1 < entry.types@.len(),
                i <= restrictions@.len(),
            decreases restrictions@.len() - i,
        {
            let ghost before = *self;
            let (name, t) = restrictions[i];
            assert(t == restrictions@[i as int].1);
            self.define(name, t);
            proof {
                assert(self.types@.subrange(0, before.types@.len() as int) =~= before.types@);
                assert(self.errors@.subrange(0, before.errors@.len() as int) =~= before.errors@);
                assert(self.variables@.subrange(0, before.variables@.len() as int) =~= before.variables@);
                lemma_declared_more_trans(&opened, &before, self);
            }
            i = i + 1;
        }
        let ghost before = *self;
        self.resolve_statement(s);
        proof {
            lemma_declared_more_trans(&opened, &before, self);
        }
        let ghost before_end = *self;
        proof {
            lemma_scope_end(&entry, &opened, self);
        }
        self.end_scope(Ghost(entry.variables@.len() as int));
        proof {
            assert(self.variables@ =~= entry.variables@);
            assert(self.types@.subrange(0, entry.types@.len() as int) =~= before_end.types@.subrange(0, entry.types@.len() as int));
            assert(self.errors@.subrange(0, entry.errors@.len() as int) =~= before_end.errors@.subrange(0, entry.errors@.len() as int));
        }
    }

    /// Checks a statement; the variables it declares stay in scope.
    fn resolve_statement(&mut self, s: &Statement<'s>)
        requires
            old(self).inv(),
            stmt_ok(*s, old(self).room(), old(self).function_stack@.len() > 0),
        ensures
            old(self).declared_more(final(self)),
            variable_statement(*s) matches Some(v) ==> (lookup_index(old(self).variables@, v.0) < 0 ==> final(self).errors@.len() > old(self).errors@.len() && is_diagnostic(final(self).errors@[old(self).errors@.len() as int], old(self).b(), "Unknown Variable"@, "Variable '"@ + v.0 + "' is undefined"@, v.1)),
            s.stmt matches Stmt::Declaration { identifier, .. } ==> (identifier matches DeclarationIdentifier::Variable(name) ==> final(self).variables@.len() == old(self).variables@.len() + 1 && final(self).variables@.last().name == name && final(self).variables@.last().depth == old(self).scope_depth),
            declared_literal(*s) matches Some(t) ==> final(self).variables@.last().type_ == uplevel(t),
            !(s.stmt is Declaration) ==> final(self).variables@ == old(self).variables@,
            s.stmt matches Stmt::Expression { expression } ==> (operand_checks(old(self).types@, old(self).variables@, expression) is Some ==> final(self).types@ == old(self).types@ && check_errors(old(self).errors@, final(self).errors@, old(self).b(), old(self).types@, operand_checks(old(self).types@, old(self).variables@, expression).unwrap().1)),
            s.stmt matches Stmt::Declaration { identifier, type_, expression } ==> (identifier is Variable && expression is Some && operand_checks(old(self).types@, old(self).variables@, expression.unwrap()) is Some && declared_annotation(type_, uplevel(operand_checks(old(self).types@, old(self).variables@, expression.unwrap()).unwrap().0)) is Some ==> ({
                let value = uplevel(operand_checks(old(self).types@, old(self).variables@, expression.unwrap()).unwrap().0);
                let declared = declared_annotation(type_, value).unwrap();
                &&& final(self).variables@ == old(self).variables@.push(Variable { name: identifier->Variable_0, depth: old(self).scope_depth, type_: declared })
                &&& final(self).types@ == old(self).types@
                &&& check_errors(old(self).errors@, final(self).errors@, old(self).b(), old(self).types@, operand_checks(old(self).types@, old(self).variables@, expression.unwrap()).unwrap().1.push((value, declared, s.span)))
            })),
            s.stmt matches Stmt::Declaration { identifier, type_, expression } ==> (identifier is Variable && expression is Some && operand_type(old(self).variables@, expression.unwrap()) is Some && declared_annotation(type_, uplevel(operand_type(old(self).variables@, expression.unwrap()).unwrap())) is Some ==> ({
                let value = uplevel(operand_type(old(self).variables@, expression.unwrap()).unwrap());
                let declared = declared_annotation(type_, value).unwrap();
                &&& final(self).variables@.last().type_ == declared
                &&& final(self).types@ == old(self).types@
                &&& checked_errors(old(self).errors@, final(self).errors@, old(self).b(), old(self).types@, seq![(value, declared)], s.span)
            })),
            forall|i: int| old(self).variables@.len() <= i < final(self).variables@.len() ==> declares(*s, (#[trigger] final(self).variables@[i]).name@),
        decreases s, 2nat,
    {
        let ghost entry = *self;
        proof {
            lemma_grown_refl(self);
            lemma_same_scopes_is_declared_more(&entry, self);
        }
        let span = s.span;
        match &s.stmt {
            Stmt::Declaration { identifier, expression, type_ } => {
                let expression_type = match expression {
                    Some(value) => {
                        let t = self.resolve_expression(value);
                        uplevel_type(t)
                    },
                    None => NULL,
                };
                let ghost a = *self;
                let annotated_type = match type_ {
                    Some(annotation) => self.type_from_annotation(annotation),
                    None => expression_type,
                };
                let ghost b = *self;
                self.assert_type(expression_type, annotated_type, span);
                proof {
                    if expression is None {
                        lemma_grown_refl(&a);
                    }
                    if type_ is None {
                        lemma_grown_refl(&b);
                    }
                    lemma_same_scopes_trans(&entry, &a, &b);
                    lemma_same_scopes_trans(&entry, &b, self);
                    lemma_same_scopes_is_declared_more(&entry, self);
                }
                let ghost c = *self;
                self.declare(identifier, annotated_type);
                proof {
                    lemma_declared_more_trans(&entry, &c, self);
                    if identifier is Variable && expression is Some && operand_type(entry.variables@, expression.unwrap()) is Some && declared_annotation(*type_, uplevel(operand_type(entry.variables@, expression.unwrap()).unwrap())) is Some {
                        assert(a.errors@ == entry.errors@ && a.types@ == entry.types@);
                        assert(expression_type == uplevel(operand_type(entry.variables@, expression.unwrap()).unwrap()));
                        assert(annotated_type == declared_annotation(*type_, expression_type).unwrap());
                        assert(b.errors@ == entry.errors@ && b.types@ == entry.types@);
                    }
                    if identifier is Variable && expression is Some && operand_checks(entry.types@, entry.variables@, expression.unwrap()) is Some && declared_annotation(*type_, uplevel(operand_checks(entry.types@, entry.variables@, expression.unwrap()).unwrap().0)) is Some {
                        let cs = operand_checks(entry.types@, entry.variables@, expression.unwrap()).unwrap().1;
                        assert(a.types@ == entry.types@);
                        assert(expression_type == uplevel(operand_checks(entry.types@, entry.variables@, expression.unwrap()).unwrap().0));
                        assert(annotated_type == declared_annotation(*type_, expression_type).unwrap());
                        assert(b.errors@ == a.errors@ && b.types@ == entry.types@);
                        lemma_then_one(entry.errors@, b.errors@, c.errors@, entry.b(), entry.types@, cs, expression_type, annotated_type, span);
                    }
                }
            },
            Stmt::If { condition, then, otherwise } => {
                self.resolve_expression(condition);
                let ghost a = *self;
                let restrictions = self.get_restrictions(condition);
                let ghost b = *self;
                self.resolve_statement_with_restrictions(then, &restrictions);
                proof {
                    lemma_same_scopes_trans(&entry, &a, &b);
                    lemma_same_scopes_trans(&entry, &b, self);
                }
                match otherwise {
                    Some(other) => {
                        let ghost c = *self;
                        let inverse = self.inverse_restrictions(&restrictions);
                        let ghost d = *self;
                        self.resolve_statement_with_restrictions(other, &inverse);
                        proof {
                            lemma_same_scopes_trans(&c, &d, self);
                            lemma_same_scopes_trans(&entry, &c, self);
                        }
                    },
                    None => {},
                }
                proof {
                    lemma_same_scopes_is_declared_more(&entry, self);
                }
            },
            Stmt::While { condition, body } => {
                self.resolve_expression(condition);
                let ghost a = *self;
                let restrictions = self.get_restrictions(condition);
                let ghost b = *self;
                self.resolve_statement_with_restrictions(body, &restrictions);
                proof {
                    lemma_same_scopes_trans(&entry, &a, &b);
                    lemma_same_scopes_trans(&entry, &b, self);
                    lemma_same_scopes_is_declared_more(&entry, self);
                }
            },
            Stmt::Block { body } => {
                self.begin_scope();
                let ghost opened = *self;
                proof {
                    lemma_grown_refl(self);
                    lemma_same_scopes_is_declared_more(&opened, self);
                }
                let mut i: usize = 0;
                while i < body.len()
                    invariant
                        opened.declared_more(self),
                        opened.scope_depth == entry.scope_depth + 1,
                        opened.function_stack@ == entry.function_stack@,
                        opened.variables@ == entry.variables@,
                        entry.inv(),
                        s.stmt == (Stmt::Block { body: *body }),
                        stmts_ok(body@, (entry.room() - 1) as nat, entry.function_stack@.len() > 0),
                        i <= body@.len(),
                    decreases body@.len() - i,
                {
                    proof {
                        lemma_stmts_ok(body@, (entry.room() - 1) as nat, entry.function_stack@.len() > 0, i as int);
                    }
                    let ghost before = *self;
                    proof {
                        assert(decreases_to!(s => s.stmt));
                        assert(decreases_to!(s.stmt => s.stmt->Block_body));
                        assert(decreases_to!(s.stmt->Block_body => s.stmt->Block_body@));
                        assert(decreases_to!(s.stmt->Block_body@ => s.stmt->Block_body@[i as int]));
                    }
                    self.resolve_statement(&body[i]);
                    proof {
                        lemma_declared_more_trans(&opened, &before, self);
                    }
                    i = i + 1;
                }
                let ghost before_end = *self;
                proof {
                    lemma_scope_end(&entry, &opened, self);
                }
                self.end_scope(Ghost(entry.variables@.len() as int));
                proof {
                    assert(self.variables@ =~= entry.variables@);
                    assert(self.types@.subrange(0, entry.types@.len() as int) =~= before_end.types@.subrange(0, entry.types@.len() as int));
                    assert(self.errors@.subrange(0, entry.errors@.len() as int) =~= before_end.errors@.subrange(0, entry.errors@.len() as int));
                    lemma_same_scopes_is_declared_more(&entry, self);
                }
            },
            Stmt::Expression { expression } => {
                self.resolve_expression(expression);
                proof {
                    lemma_same_scopes_is_declared_more(&entry, self);
                }
            },
            Stmt::Comment { .. } => {},
            Stmt::Import { .. } => {},
            Stmt::Return { expression } => {
                match expression {
                    Some(value) => {
                        let t = self.resolve_expression(value);
                        let n = self.function_stack.len();
                        let expected = self.function_stack[n - 1];
                        let ghost a = *self;
                        self.assert_type(t, expected, span);
                        proof {
                            lemma_same_scopes_trans(&entry, &a, self);
                            lemma_same_scopes_is_declared_more(&entry, self);
                        }
                    },
                    None => {},
                }
            },
        }
    }

    /// Declares what a declaration binds: one variable of the type, or
    /// each name of a list or of named items with type `any`.
    fn declare(&mut self, identifier: &DeclarationIdentifier<'s>, t: usize)
        requires
            old(self).inv(),
            t < old(self).types@.len(),
        ensures
            old(self).declared_more(final(self)),
            final(self).types@ == old(self).types@,
            final(self).errors@ == old(self).errors@,
            identifier matches DeclarationIdentifier::Variable(name) ==> final(self).variables@ == old(self).variables@.push(Variable { name: *name, depth: old(self).scope_depth, type_: t }),
            forall|i: int| old(self).variables@.len() <= i < final(self).variables@.len() ==> binds(*identifier, (#[trigger] final(self).variables@[i]).name@),
    {
        let ghost entry = *self;
        proof {
            lemma_grown_refl(self);
            lemma_same_scopes_is_declared_more(&entry, self);
        }
        match identifier {
            DeclarationIdentifier::Variable(name) => {
                self.define(name, t);
                proof {
                    assert(self.types@.subrange(0, entry.types@.len() as int) =~= entry.types@);
                    assert(self.errors@.subrange(0, entry.errors@.len() as int) =~= entry.errors@);
                    assert(self.variables@.subrange(0, entry.variables@.len() as int) =~= entry.variables@);
                }
            },
            DeclarationIdentifier::Ordered(names) => {
                let mut i: usize = 0;
                while i < names.len()
                    invariant
                        entry.declared_more(self),
                        self.types@ == entry.types@,
                        self.errors@ == entry.errors@,
                        i <= names@.len(),
                        *identifier == DeclarationIdentifier::Ordered(*names),
                        forall|j: int| entry.variables@.len() <= j < self.variables@.len() ==> binds(*identifier, (#[trigger] self.variables@[j]).name@),
                    decreases names@.len() - i,
                {
                    let ghost before = *self;
                    self.define(names[i], ANY);
                    proof {
                        assert(self.variables@[self.variables@.len() - 1].name@ == names@[i as int]@);
                        assert forall|j: int| entry.variables@.len() <= j < self.variables@.len() implies binds(*identifier, (#[trigger] self.variables@[j]).name@) by {
                            if j < before.variables@.len() {
                                assert(self.variables@[j] == before.variables@[j]);
                            } else {
                                assert(j == before.variables@.len());
                                assert(self.variables@[j].name == names@[i as int]);
                                assert(identifier->Ordered_0@[i as int]@ == self.variables@[j].name@);
                            }
                        }
                    }
                    proof {
                        assert(self.types@.subrange(0, before.types@.len() as int) =~= before.types@);
                        assert(self.errors@.subrange(0, before.errors@.len() as int) =~= before.errors@);
                        assert(self.variables@.subrange(0, before.variables@.len() as int) =~= before.variables@);
                        lemma_declared_more_trans(&entry, &before, self);
                    }
                    i = i + 1;
                }
            },
            DeclarationIdentifier::Named(items) => {
                let mut i: usize = 0;
                while i < items.len()
                    invariant
                        entry.declared_more(self),
                        self.types@ == entry.types@,
                        self.errors@ == entry.errors@,
                        i <= items@.len(),
                        *identifier == DeclarationIdentifier::Named(*items),
                        forall|j: int| entry.variables@.len() <= j < self.variables@.len() ==> binds(*identifier, (#[trigger] self.variables@[j]).name@),
                    decreases items@.len() - i,
                {
                    let ghost before = *self;
                    let item = items[i];
                    let name = match item.alias {
                        Some(alias) => alias,
                        None => item.name,
                    };
                    self.define(name, ANY);
                    proof {
                        assert(self.variables@[self.variables@.len() - 1].name@ == (match items@[i as int].alias {
                            Some(alias) => alias@,
                            None => items@[i as int].name@,
                        }));
                        assert forall|j: int| entry.variables@.len() <= j < self.variables@.len() implies binds(*identifier, (#[trigger] self.variables@[j]).name@) by {
                            if j < before.variables@.len() {
                                assert(self.variables@[j] == before.variables@[j]);
                            } else {
                                assert((match items@[i as int].alias {
                                    Some(alias) => alias@,
                                    None => items@[i as int].name@,
                                }) == self.variables@[j].name@);
                            }
                        }
                        assert(self.types@.subrange(0, before.types@.len() as int) =~= before.types@);
                        assert(self.errors@.subrange(0, before.errors@.len() as int) =~= before.errors@);
                        assert(self.variables@.subrange(0, before.variables@.len() as int) =~= before.variables@);
                        lemma_declared_more_trans(&entry, &before, self);
                    }
                    i = i + 1;
                }
            },
        }
    }

    /// What a condition tells about variables where it holds.
    fn get_restrictions(&mut self, e: &Expression<'s>) -> (r: Vec<Restriction<'s>>)
        requires
            old(self).inv(),
            expr_ok(*e, old(self).room()),
            narrowable(*e),
        ensures
            old(self).same_scopes(final(self)),
            forall|k: int| 0 <= k < r@.len() ==> #[trigger] r@[k].1 < final(self).types@.len(),
            forall|k: int| 0 <= k < r@.len() ==> restricted_names(*e).contains(#[trigger] r@[k].0@),
            forall|n: Seq<char>|
                restricted_names(*e).contains(n) ==> exists|k: int| 0 <= k < r@.len() && #[trigger] r@[k].0@ == n,
        decreases e, 1nat,
    {
        let ghost entry = *self;
        proof {
            lemma_grown_refl(self);
        }
        match &e.expr {
            Expr::Group { expression } => {
                let r = self.get_restrictions(expression);
                proof {
                    assert(restricted_names(*e) == restricted_names(**expression));
                }
                r
            },
            Expr::Binary { operator, left, right } => {
                match operator {
                    BinaryOperator::And => {
                        let l = self.get_restrictions(left);
                        let ghost a = *self;
                        let r = self.get_restrictions(right);
                        proof {
                            lemma_same_scopes_trans(&entry, &a, self);
                        }
                        let ghost c = *self;
                        let merged = self.merge_restrictions(l, r, Ghost(restricted_names(**left)), Ghost(restricted_names(**right)));
                        proof {
                            lemma_same_scopes_trans(&entry, &c, self);
                            assert(restricted_names(*e) == restricted_names(**left).union(restricted_names(**right)));
                        }
                        merged
                    },
                    BinaryOperator::Or => {
                        let l = self.get_restrictions(left);
                        let ghost a = *self;
                        let r = self.get_restrictions(right);
                        proof {
                            lemma_same_scopes_trans(&entry, &a, self);
                        }
                        let ghost c = *self;
                        let joined = self.join_restrictions(l, r, Ghost(restricted_names(**left)), Ghost(restricted_names(**right)));
                        proof {
                            lemma_same_scopes_trans(&entry, &c, self);
                            assert(restricted_names(*e) == or_names(restricted_names(**left), restricted_names(**right)));
                        }
                        joined
                    },
                    BinaryOperator::Equal => {
                        let t = self.resolve_expression(right);
                        let mut result: Vec<Restriction<'s>> = Vec::new();
                        match &left.expr {
                            Expr::Variable { name } => {
                                result.push((*name, t));
                            },
                            _ => {},
                        }
                        proof {
                            if left.expr is Variable {
                                assert(result@[0].0@ == left.expr->Variable_name@);
                                assert(restricted_names(*e) == set![left.expr->Variable_name@]);
                                assert forall|n: Seq<char>| restricted_names(*e).contains(n) implies exists|k: int| 0 <= k < result@.len() && #[trigger] result@[k].0@ == n by {
                                    assert(result@[0].0@ == n);
                                }
                            } else {
                                assert(restricted_names(*e) =~= Set::<Seq<char>>::empty());
                            }
                        }
                        result
                    },
                    BinaryOperator::NotEqual => {
                        let l = self.resolve_expression(left);
                        let ghost a = *self;
                        let r = self.resolve_expression(right);
                        proof {
                            lemma_same_scopes_trans(&entry, &a, self);
                        }
                        let mut result: Vec<Restriction<'s>> = Vec::new();
                        match &left.expr {
                            Expr::Variable { name } => {
                                let ghost b = *self;
                                let t = self.narrow_type(l, r);
                                proof {
                                    lemma_same_scopes_trans(&entry, &b, self);
                                }
                                result.push((*name, t));
                            },
                            _ => {},
                        }
                        proof {
                            if left.expr is Variable {
                                assert(result@[0].0@ == left.expr->Variable_name@);
                                assert(restricted_names(*e) == set![left.expr->Variable_name@]);
                                assert forall|n: Seq<char>| restricted_names(*e).contains(n) implies exists|k: int| 0 <= k < result@.len() && #[trigger] result@[k].0@ == n by {
                                    assert(result@[0].0@ == n);
                                }
                            } else {
                                assert(restricted_names(*e) =~= Set::<Seq<char>>::empty());
                            }
                        }
                        result
                    },
                    _ => {
                        proof {
                            assert(restricted_names(*e) =~= Set::<Seq<char>>::empty());
                        }
                        Vec::new()
                    },
                }
            },
            _ => {
                proof {
                    assert(restricted_names(*e) =~= Set::<Seq<char>>::empty());
                }
                Vec::new()
            },
        }
    }

    /// The restrictions of `a and b`: those of both, and for a name both
    /// restrict, the type from `b` narrowed by the type from `a`.
    fn merge_restrictions(
        &mut self,
        l: Vec<Restriction<'s>>,
        r: Vec<Restriction<'s>>,
        Ghost(ln): Ghost<Set<Seq<char>>>,
        Ghost(rn): Ghost<Set<Seq<char>>>,
    ) -> (result: Vec<Restriction<'s>>)
        requires
            old(self).inv(),
            forall|k: int| 0 <= k < l@.len() ==> #[trigger] l@[k].1 < old(self).types@.len(),
            forall|k: int| 0 <= k < r@.len() ==> #[trigger] r@[k].1 < old(self).types@.len(),
            forall|k: int| 0 <= k < l@.len() ==> ln.contains(#[trigger] l@[k].0@),
            forall|n: Seq<char>| ln.contains(n) ==> exists|k: int| 0 <= k < l@.len() && #[trigger] l@[k].0@ == n,
            forall|k: int| 0 <= k < r@.len() ==> rn.contains(#[trigger] r@[k].0@),
            forall|n: Seq<char>| rn.contains(n) ==> exists|k: int| 0 <= k < r@.len() && #[trigger] r@[k].0@ == n,
        ensures
            old(self).same_scopes(final(self)),
            forall|k: int| 0 <= k < result@.len() ==> #[trigger] result@[k].1 < final(self).types@.len(),
            forall|k: int| 0 <= k < result@.len() ==> ln.union(rn).contains(#[trigger] result@[k].0@),
            forall|n: Seq<char>|
                ln.union(rn).contains(n) ==> exists|k: int| 0 <= k < result@.len() && #[trigger] result@[k].0@ == n,
    {
        let ghost entry = *self;
        proof {
            lemma_grown_refl(self);
            lemma_list_map(l@);
        }
        let ghost lv = l@;
        let mut map = map_from_list(l);
        proof {
            assert forall|k: Seq<char>| #[trigger] restriction_entries(map).contains_key(k) implies restriction_entries(map)[k] < self.types@.len() && (ln.contains(k) || rn.contains(k)) by {
                assert(list_map(lv).contains_key(k));
                let i = choose|i: int| 0 <= i < lv.len() && lv[i].0@ == k && lv[i].1 == list_map(lv)[k];
                assert(ln.contains(lv[i].0@));
            }
            assert forall|n: Seq<char>| ln.contains(n) implies #[trigger] restriction_entries(map).contains_key(n) by {
                let k = choose|k: int| 0 <= k < lv.len() && #[trigger] lv[k].0@ == n;
                assert(list_map(lv).contains_key(lv[k].0@));
            }
        }
        let mut i: usize = 0;
        while i < r.len()
            invariant
                entry.same_scopes(self),
                forall|k: int| 0 <= k < r@.len() ==> #[trigger] r@[k].1 < entry.types@.len(),
                forall|k: Seq<char>| #[trigger] restriction_entries(map).contains_key(k) ==> restriction_entries(map)[k] < self.types@.len(),
                forall|k: Seq<char>| #[trigger] restriction_entries(map).contains_key(k) ==> ln.contains(k) || rn.contains(k),
                forall|n: Seq<char>| ln.contains(n) ==> #[trigger] restriction_entries(map).contains_key(n),
                forall|k: int| 0 <= k < i ==> #[trigger] restriction_entries(map).contains_key(r@[k].0@),
                forall|k: int| 0 <= k < r@.len() ==> rn.contains(#[trigger] r@[k].0@),
                i <= r@.len(),
            decreases r@.len() - i,
        {
            let (name, t) = r[i];
            let ghost before = *self;
            proof {
                lemma_grown_refl(&before);
            }
            match map_get(&map, name) {
                Some(existing) => {
                    let narrowed = self.narrow_type(t, existing);
                    map_insert(&mut map, name, narrowed);
                },
                None => {
                    map_insert(&mut map, name, t);
                },
            }
            proof {
                lemma_same_scopes_trans(&entry, &before, self);
            }
            i = i + 1;
        }
        proof {
            assert forall|n: Seq<char>| rn.contains(n) implies #[trigger] restriction_entries(map).contains_key(n) by {
                let k = choose|k: int| 0 <= k < r@.len() && #[trigger] r@[k].0@ == n;
            }
        }
        let ghost entries = restriction_entries(map);
        let result = map_into_list(map);
        proof {
            assert forall|k: int| 0 <= k < result@.len() implies #[trigger] result@[k].1 < self.types@.len() by {
                assert(entries.contains_key(result@[k].0@));
            }
            assert forall|k: int| 0 <= k < result@.len() implies ln.union(rn).contains(#[trigger] result@[k].0@) by {
                assert(entries.contains_key(result@[k].0@));
            }
            assert forall|n: Seq<char>| ln.union(rn).contains(n) implies exists|k: int| 0 <= k < result@.len() && #[trigger] result@[k].0@ == n by {
                assert(entries.contains_key(n));
            }
        }
        result
    }

    /// The restrictions of `a or b`: when both restrict only the same
    /// variable, it is the union of their types; else none.
    fn join_restrictions(
        &mut self,
        l: Vec<Restriction<'s>>,
        r: Vec<Restriction<'s>>,
        Ghost(ln): Ghost<Set<Seq<char>>>,
        Ghost(rn): Ghost<Set<Seq<char>>>,
    ) -> (result: Vec<Restriction<'s>>)
        requires
            old(self).inv(),
            ln != Set::<Seq<char>>::empty(),
            forall|k: int| 0 <= k < l@.len() ==> #[trigger] l@[k].1 < old(self).types@.len(),
            forall|k: int| 0 <= k < r@.len() ==> #[trigger] r@[k].1 < old(self).types@.len(),
            forall|k: int| 0 <= k < l@.len() ==> ln.contains(#[trigger] l@[k].0@),
            forall|n: Seq<char>| ln.contains(n) ==> exists|k: int| 0 <= k < l@.len() && #[trigger] l@[k].0@ == n,
            forall|k: int| 0 <= k < r@.len() ==> rn.contains(#[trigger] r@[k].0@),
            forall|n: Seq<char>| rn.contains(n) ==> exists|k: int| 0 <= k < r@.len() && #[trigger] r@[k].0@ == n,
        ensures
            old(self).same_scopes(final(self)),
            ({
                let names = or_names(ln, rn);
                &&& forall|k: int| 0 <= k < result@.len() ==> #[trigger] result@[k].1 < final(self).types@.len()
                &&& forall|k: int| 0 <= k < result@.len() ==> names.contains(#[trigger] result@[k].0@)
                &&& forall|n: Seq<char>| names.contains(n) ==> exists|k: int| 0 <= k < result@.len() && #[trigger] result@[k].0@ == n
            }),
    {
        let ghost entry = *self;
        proof {
            lemma_grown_refl(self);
            assert(exists|x: Seq<char>| ln.contains(x)) by {
                if !(exists|x: Seq<char>| ln.contains(x)) {
                    assert(ln =~= Set::<Seq<char>>::empty());
                }
            }
            let x = choose|x: Seq<char>| ln.contains(x);
            let k = choose|k: int| 0 <= k < l@.len() && #[trigger] l@[k].0@ == x;
            assert(l@.len() > 0);
        }
        let first = l[0].0;
        let mut all_same = true;
        let mut i: usize = 0;
        while i < l.len()
            invariant
                l@.len() > 0,
                first == l@[0].0,
                i <= l@.len(),
                all_same == (forall|k: int| 0 <= k < i ==> #[trigger] l@[k].0@ == first@),
            decreases l@.len() - i,
        {
            if !same_chars(l[i].0, first) {
                all_same = false;
            }
            i = i + 1;
        }
        let mut j: usize = 0;
        while j < r.len()
            invariant
                first == l@[0].0,
                j <= r@.len(),
                all_same == ((forall|k: int| 0 <= k < l@.len() ==> #[trigger] l@[k].0@ == first@)
                    && (forall|k: int| 0 <= k < j ==> #[trigger] r@[k].0@ == first@)),
            decreases r@.len() - j,
        {
            if !same_chars(r[j].0, first) {
                all_same = false;
            }
            j = j + 1;
        }
        proof {
            if all_same {
                assert(ln =~= set![first@]) by {
                    assert forall|n: Seq<char>| ln.contains(n) implies n == first@ by {
                        let k = choose|k: int| 0 <= k < l@.len() && #[trigger] l@[k].0@ == n;
                    }
                    assert(ln.contains(l@[0].0@));
                }
                assert(rn.subset_of(ln)) by {
                    assert forall|n: Seq<char>| rn.contains(n) implies ln.contains(n) by {
                        let k = choose|k: int| 0 <= k < r@.len() && #[trigger] r@[k].0@ == n;
                    }
                }
                assert(ln == set![first@] && rn.subset_of(ln));
                assert(or_names(ln, rn) == ln);
            } else {
                if exists|x: Seq<char>| ln == set![x] && rn.subset_of(ln) {
                    let x = choose|x: Seq<char>| ln == set![x] && rn.subset_of(ln);
                    assert(ln.contains(l@[0].0@));
                    assert forall|k: int| 0 <= k < l@.len() implies #[trigger] l@[k].0@ == first@ by {
                        assert(ln.contains(l@[k].0@));
                    }
                    assert forall|k: int| 0 <= k < r@.len() implies #[trigger] r@[k].0@ == first@ by {
                        assert(rn.contains(r@[k].0@));
                    }
                    assert(false);
                }
                assert(or_names(ln, rn) == Set::<Seq<char>>::empty());
            }
        }
        if !all_same {
            return Vec::new();
        }
        let mut types: Vec<usize> = Vec::new();
        let mut i: usize = 0;
        while i < l.len()
            invariant
                i <= l@.len(),
                forall|k: int| 0 <= k < l@.len() ==> #[trigger] l@[k].1 < entry.types@.len(),
                forall|k: int| 0 <= k < types@.len() ==> #[trigger] types@[k] < entry.types@.len(),
            decreases l@.len() - i,
        {
            types.push(l[i].1);
            i = i + 1;
        }
        let mut j: usize = 0;
        while j < r.len()
            invariant
                j <= r@.len(),
                forall|k: int| 0 <= k < r@.len() ==> #[trigger] r@[k].1 < entry.types@.len(),
                forall|k: int| 0 <= k < types@.len() ==> #[trigger] types@[k] < entry.types@.len(),
            decreases r@.len() - j,
        {
            types.push(r[j].1);
            j = j + 1;
        }
        let ghost before = *self;
        let t = union_types(&mut self.types, &types);
        proof {
            assert(self.types@.subrange(0, before.types@.len() as int) =~= before.types@) by {
                if self.types@.len() > before.types@.len() {
                    assert(self.types@.subrange(0, before.types@.len() as int) == before.types@);
                }
            }
            assert(self.errors@.subrange(0, before.errors@.len() as int) =~= before.errors@);
        }
        let mut result: Vec<Restriction<'s>> = Vec::new();
        result.push((first, t));
        proof {
            assert(ln.contains(l@[0].0@));
            assert(result@[0].0@ == first@);
            assert(ln =~= set![first@]);
        }
        result
    }

    /// The restrictions where a condition does not hold: each restricted
    /// variable's own type without the restricted type. A variable that is
    /// not declared narrows nothing.
    fn inverse_restrictions(&mut self, restrictions: &Vec<Restriction<'s>>) -> (r: Vec<Restriction<'s>>)
        requires
            old(self).inv(),
            forall|k: int| 0 <= k < restrictions@.len() ==> #[trigger] restrictions@[k].1 < old(self).types@.len(),
        ensures
            old(self).same_scopes(final(self)),
            forall|k: int| 0 <= k < r@.len() ==> #[trigger] r@[k].1 < final(self).types@.len(),
    {
        let ghost entry = *self;
        proof {
            lemma_grown_refl(self);
        }
        let mut result: Vec<Restriction<'s>> = Vec::new();
        let mut i: usize = 0;
        while i < restrictions.len()
            invariant
                entry.same_scopes(self),
                forall|k: int| 0 <= k < restrictions@.len() ==> #[trigger] restrictions@[k].1 < entry.types@.len(),
                forall|k: int| 0 <= k < result@.len() ==> #[trigger] result@[k].1 < self.types@.len(),
                i <= restrictions@.len(),
            decreases restrictions@.len() - i,
        {
            let (name, not_type) = restrictions[i];
            match self.lookup(name) {
                Some(current) => {
                    let ghost before = *self;
                    let t = self.narrow_type(current, not_type);
                    proof {
                        lemma_same_scopes_trans(&entry, &before, self);
                    }
                    result.push((name, t));
                },
                None => {},
            }
            i = i + 1;
        }
        result
    }
}

/// The table a check starts with: the built-in types, then the types of
/// `print` (anything to `null`) and `type` (anything to `string`).
pub open spec fn initial_table(t: Seq<Type>) -> bool {
    &&& builtin_table(t)
    &&& t.len() == 11
    &&& t[9] matches Type::Function(ret, params) && ret == NULL && params@ == seq![ANY]
    &&& t[10] matches Type::Function(ret, params) && ret == STRING && params@ == seq![ANY]
}

/// The variables a check starts with: `print` and `type`.
pub open spec fn initial_variables(v: Seq<Variable>) -> bool {
    &&& v.len() == 2
    &&& v[0].name@ == "print"@ && v[0].depth == 0 && v[0].type_ == 9
    &&& v[1].name@ == "type"@ && v[1].depth == 0 && v[1].type_ == 10
}

/// The variables in scope and the type checks made, in order, after the
/// first `n` statements of a program, where each is an expression
/// statement or a declaration of one variable, and every value is an
/// expression that `operand_checks` covers with a built-in or no
/// annotation; none otherwise.
pub open spec fn program_state<'a>(types: Seq<Type>, vars: Seq<Variable<'a>>, ast: Seq<Statement<'a>>, n: int) -> Option<(Seq<Variable<'a>>, Seq<Check>)>
    decreases n,
{
    if n <= 0 {
        Some((vars, Seq::empty()))
    } else {
        match program_state(types, vars, ast, n - 1) {
            Some(prev) => {
                let s = ast[n - 1];
                match s.stmt {
                    Stmt::Expression { expression } => match operand_checks(types, prev.0, expression) {
                        Some(c) => Some((prev.0, prev.1 + c.1)),
                        None => None,
                    },
                    Stmt::Declaration { identifier: DeclarationIdentifier::Variable(name), type_, expression: Some(value) } =>
                        match operand_checks(types, prev.0, value) {
                        Some(c) => match declared_annotation(type_, uplevel(c.0)) {
                            Some(declared) => Some(
                                (
                                    prev.0.push(Variable { name, depth: 0, type_: declared }),
                                    prev.1 + c.1.push((uplevel(c.0), declared, s.span)),
                                ),
                            ),
                            None => None,
                        },
                        None => None,
                    },
                    _ => None,
                }
            },
            None => None,
        }
    }
}

/// Statement `i` of a program is a lone variable that neither the builtins
/// nor any statement before it at the top level declares.
pub open spec fn undeclared_reference(ast: Seq<Statement>, i: int) -> bool {
    &&& variable_statement(ast[i]) is Some
    &&& variable_statement(ast[i]).unwrap().0 != "print"@
    &&& variable_statement(ast[i]).unwrap().0 != "type"@
    &&& forall|j: int| 0 <= j < i ==> !declares(#[trigger] ast[j], variable_statement(ast[i]).unwrap().0)
}

/// Some diagnostic reports the variable that statement `s` is made of as
/// undefined, on the line where the statement starts.
pub open spec fn reports_unknown(r: Seq<Diagnostic>, b: Seq<u8>, s: Statement) -> bool {
    exists|k: int|
        0 <= k < r.len() && is_diagnostic(
            #[trigger] r[k],
            b,
            "Unknown Variable"@,
            "Variable '"@ + variable_statement(s).unwrap().0 + "' is undefined"@,
            variable_statement(s).unwrap().1,
        )
}

proof fn lemma_absent_name(vars: Seq<Variable>, name: Seq<char>)
    requires
        forall|x: int| 0 <= x < vars.len() ==> (#[trigger] vars[x]).name@ != name,
    ensures
        lookup_index(vars, name) < 0,
{
    lemma_lookup_index(vars, name);
    if lookup_index(vars, name) >= 0 {
        assert(vars[lookup_index(vars, name)].name@ == name);
    }
}

/// Typechecks a program: `ast` is the tree that was parsed from `source`.
/// Returns the errors found, in the order found.
pub fn typecheck<'s>(source: &'s str, ast: &[Statement<'s>]) -> (r: Vec<Diagnostic>)
    requires
        lines_fit(bytes_of(source)),
        forall|i: int| 0 <= i < ast@.len() ==> stmt_ok(#[trigger] ast@[i], max_room(), false),
    ensures
        forall|i: int| 0 <= i < r@.len() ==> checked_diagnostic(#[trigger] r@[i], bytes_of(source)),
        ast@.len() > 0 ==> (variable_statement(ast@[0]) matches Some(v) ==> (v.0 != "print"@ && v.0
            != "type"@ ==> r@.len() > 0 && is_diagnostic(
            r@[0],
            bytes_of(source),
            "Unknown Variable"@,
            "Variable '"@ + v.0 + "' is undefined"@,
            v.1,
        ))),
        forall|i: int|
            0 <= i < ast@.len() && #[trigger] undeclared_reference(ast@, i) ==> reports_unknown(
                r@,
                bytes_of(source),
                ast@[i],
            ),
        exists|types0: Seq<Type>, vars0: Seq<Variable>|
            initial_table(types0) && initial_variables(vars0) && (program_state(types0, vars0, ast@, ast@.len() as int) is Some ==> check_errors(
                Seq::empty(),
                r@,
                bytes_of(source),
                types0,
                program_state(types0, vars0, ast@, ast@.len() as int).unwrap().1,
            )),
{
    let mut checker = Typechecker::new(source);
    let ghost types0 = checker.types@;
    let ghost vars0 = checker.variables@;
    proof {
        assert(checker.errors@ =~= Seq::<Diagnostic>::empty());
    }
    let ghost unknown_first = ast@.len() > 0 && (variable_statement(ast@[0]) matches Some(v)
        && v.0 != "print"@ && v.0 != "type"@);
    let mut i: usize = 0;
    while i < ast.len()
        invariant
            unknown_first == (ast@.len() > 0 && (variable_statement(ast@[0]) matches Some(v)
                && v.0 != "print"@ && v.0 != "type"@)),
            i == 0 ==> checker.variables@.len() == 2 && checker.variables@[0].name@ == "print"@
                && checker.variables@[1].name@ == "type"@ && checker.errors@.len() == 0,
            unknown_first && i > 0 ==> checker.errors@.len() > 0 && is_diagnostic(
                checker.errors@[0],
                bytes_of(source),
                "Unknown Variable"@,
                "Variable '"@ + variable_statement(ast@[0]).unwrap().0 + "' is undefined"@,
                variable_statement(ast@[0]).unwrap().1,
            ),
            checker.inv(),
            checker.source == source,
            checker.scope_depth == 0,
            checker.function_stack@.len() == 0,
            forall|i: int| 0 <= i < ast@.len() ==> stmt_ok(#[trigger] ast@[i], max_room(), false),
            i <= ast@.len(),
            checker.variables@.len() >= 2,
            checker.variables@[0].name@ == "print"@,
            checker.variables@[1].name@ == "type"@,
            forall|x: int|
                2 <= x < checker.variables@.len() ==> exists|j: int|
                    0 <= j < i && declares(ast@[j], (#[trigger] checker.variables@[x]).name@),
            forall|k: int|
                0 <= k < i && #[trigger] undeclared_reference(ast@, k) ==> reports_unknown(
                    checker.errors@,
                    bytes_of(source),
                    ast@[k],
                ),
            initial_table(types0),
            initial_variables(vars0),
            program_state(types0, vars0, ast@, i as int) is Some ==> checker.types@ == types0
                && checker.variables@ == program_state(types0, vars0, ast@, i as int).unwrap().0
                && check_errors(
                Seq::empty(),
                checker.errors@,
                bytes_of(source),
                types0,
                program_state(types0, vars0, ast@, i as int).unwrap().1,
            ),
        decreases ast@.len() - i,
    {
        let ghost before = checker;
        proof {
            if undeclared_reference(ast@, i as int) {
                let name = variable_statement(ast@[i as int]).unwrap().0;
                assert forall|x: int| 0 <= x < checker.variables@.len() implies (
                #[trigger] checker.variables@[x]).name@ != name by {
                    if x >= 2 {
                        let j = choose|j: int|
                            0 <= j < i && declares(ast@[j], checker.variables@[x].name@);
                        assert(!declares(ast@[j], name));
                    }
                }
                lemma_absent_name(checker.variables@, name);
            }
        }
        proof {
            if i == 0 && unknown_first {
                let name = variable_statement(ast@[0]).unwrap().0;
                let vars = checker.variables@;
                let first = vars.subrange(0, 1);
                assert(first[0] == vars[0]);
                assert(first.subrange(0, 0) =~= Seq::<Variable>::empty());
                assert(lookup_index(first.subrange(0, 0), name) == -1);
                assert(vars.subrange(0, vars.len() - 1) =~= first);
                assert(lookup_index(first, name) == -1);
                assert(lookup_index(vars, name) == -1);
            }
        }
        checker.resolve_statement(&ast[i]);
        proof {
            let ps = program_state(types0, vars0, ast@, i + 1);
            if ps is Some {
                let prev = program_state(types0, vars0, ast@, i as int).unwrap();
                let s = ast@[i as int];
                match s.stmt {
                    Stmt::Expression { expression } => {
                        let c = operand_checks(types0, prev.0, expression).unwrap();
                        lemma_check_errors_concat(Seq::empty(), before.errors@, checker.errors@, bytes_of(source), types0, prev.1, c.1);
                    },
                    Stmt::Declaration { identifier, type_, expression } => {
                        let c = operand_checks(types0, prev.0, expression.unwrap()).unwrap();
                        let declared = declared_annotation(type_, uplevel(c.0)).unwrap();
                        lemma_check_errors_concat(Seq::empty(), before.errors@, checker.errors@, bytes_of(source), types0, prev.1, c.1.push((uplevel(c.0), declared, s.span)));
                    },
                    _ => {},
                }
            }
            if unknown_first && i > 0 {
                assert(checker.errors@[0] == checker.errors@.subrange(0, before.errors@.len() as int)[0]);
            }
            assert forall|x: int| 2 <= x < checker.variables@.len() implies exists|j: int|
                0 <= j < i + 1 && declares(ast@[j], (#[trigger] checker.variables@[x]).name@) by {
                if x < before.variables@.len() {
                    assert(checker.variables@[x] == checker.variables@.subrange(0, before.variables@.len() as int)[x]);
                    let j = choose|j: int| 0 <= j < i && declares(ast@[j], before.variables@[x].name@);
                    assert(declares(ast@[j], checker.variables@[x].name@));
                } else {
                    assert(declares(ast@[i as int], checker.variables@[x].name@));
                }
            }
            assert(checker.variables@[0] == checker.variables@.subrange(0, before.variables@.len() as int)[0]);
            assert(checker.variables@[1] == checker.variables@.subrange(0, before.variables@.len() as int)[1]);
            assert forall|k: int| 0 <= k < i + 1 && #[trigger] undeclared_reference(ast@, k) implies reports_unknown(
                checker.errors@,
                bytes_of(source),
                ast@[k],
            ) by {
                if k < i {
                    let w = choose|w: int| 0 <= w < before.errors@.len() && is_diagnostic(
                        #[trigger] before.errors@[w],
                        bytes_of(source),
                        "Unknown Variable"@,
                        "Variable '"@ + variable_statement(ast@[k]).unwrap().0 + "' is undefined"@,
                        variable_statement(ast@[k]).unwrap().1,
                    );
                    assert(checker.errors@[w] == checker.errors@.subrange(0, before.errors@.len() as int)[w]);
                } else {
                    let w = before.errors@.len() as int;
                    assert(is_diagnostic(
                        checker.errors@[w],
                        bytes_of(source),
                        "Unknown Variable"@,
                        "Variable '"@ + variable_statement(ast@[k]).unwrap().0 + "' is undefined"@,
                        variable_statement(ast@[k]).unwrap().1,
                    ));
                }
            }
        }
        i = i + 1;
    }
    checker.errors
}

// ---------------------------------------------------------------------
// Whether the typechecker takes a program
// ---------------------------------------------------------------------

/// Every name of `names` is `x`.
fn all_named(names: &Vec<&str>, x: &str) -> (r: bool)
    ensures
        r == (forall|k: int| 0 <= k < names@.len() ==> (#[trigger] names@[k])@ == x@),
{
    let mut i: usize = 0;
    while i < names.len()
        invariant
            i <= names@.len(),
            forall|k: int| 0 <= k < i ==> (#[trigger] names@[k])@ == x@,
        decreases names@.len() - i,
    {
        if !same_chars(names[i], x) {
            return false;
        }
        i = i + 1;
    }
    true
}

/// The names that a condition narrows: each of `restricted_names`, and no
/// other.
fn narrowed_names<'s>(e: &Expression<'s>) -> (r: Vec<&'s str>)
    ensures
        forall|k: int| 0 <= k < r@.len() ==> restricted_names(*e).contains(#[trigger] r@[k]@),
        forall|n: Seq<char>|
            restricted_names(*e).contains(n) ==> exists|k: int| 0 <= k < r@.len() && #[trigger] r@[k]@ == n,
    decreases e,
{
    match &e.expr {
        Expr::Group { expression } => {
            proof {
                assert(restricted_names(*e) == restricted_names(**expression));
            }
            narrowed_names(expression)
        },
        Expr::Binary { operator, left, right } => match operator {
            BinaryOperator::And => {
                let mut l = narrowed_names(left);
                let mut r = narrowed_names(right);
                let ghost (l0, r0) = (l@, r@);
                l.append(&mut r);
                proof {
                    assert forall|n: Seq<char>| restricted_names(*e).contains(n) implies exists|k: int|
                        0 <= k < l@.len() && #[trigger] l@[k]@ == n by {
                        if restricted_names(**left).contains(n) {
                            let k = choose|k: int| 0 <= k < l0.len() && #[trigger] l0[k]@ == n;
                            assert(l@[k] == l0[k]);
                        } else {
                            let k = choose|k: int| 0 <= k < r0.len() && #[trigger] r0[k]@ == n;
                            assert(l@[l0.len() + k] == r0[k]);
                        }
                    }
                    assert forall|k: int| 0 <= k < l@.len() implies restricted_names(*e).contains(
                        #[trigger] l@[k]@,
                    ) by {
                        if k < l0.len() {
                            assert(l@[k] == l0[k]);
                        } else {
                            assert(l@[k] == r0[k - l0.len()]);
                        }
                    }
                }
                l
            },
            BinaryOperator::Or => {
                let l = narrowed_names(left);
                let r = narrowed_names(right);
                let ghost (ln, rn) = (restricted_names(**left), restricted_names(**right));
                if l.len() == 0 {
                    proof {
                        assert(ln =~= Set::empty());
                        assert(or_names(ln, rn) =~= Set::empty());
                    }
                    return Vec::new();
                }
                let x = l[0];
                if all_named(&l, x) {
                    proof {
                        assert(ln =~= set![x@]);
                    }
                    if all_named(&r, x) {
                        proof {
                            assert(rn.subset_of(ln));
                            assert(or_names(ln, rn) == ln);
                        }
                        let mut v: Vec<&'s str> = Vec::new();
                        v.push(x);
                        proof {
                            assert(v@[0]@ == x@);
                        }
                        v
                    } else {
                        proof {
                            let k = choose|k: int| 0 <= k < r@.len() && (#[trigger] r@[k])@ != x@;
                            assert(rn.contains(r@[k]@));
                            assert(!rn.subset_of(ln));
                            assert(or_names(ln, rn) =~= Set::empty());
                        }
                        Vec::new()
                    }
                } else {
                    proof {
                        let k = choose|k: int| 0 <= k < l@.len() && (#[trigger] l@[k])@ != x@;
                        assert(ln.contains(l@[k]@));
                        assert(ln.contains(x@));
                        assert forall|y: Seq<char>| !(ln == set![y]) by {
                            if ln == set![y] {
                                assert(set![y].contains(x@));
                                assert(set![y].contains(l@[k]@));
                            }
                        }
                        assert(or_names(ln, rn) =~= Set::empty());
                    }
                    Vec::new()
                }
            },
            BinaryOperator::Equal | BinaryOperator::NotEqual => match &left.expr {
                Expr::Variable { name } => {
                    let mut v: Vec<&'s str> = Vec::new();
                    v.push(*name);
                    proof {
                        assert(v@[0]@ == name@);
                        assert(restricted_names(*e) == set![name@]);
                    }
                    v
                },
                _ => {
                    proof {
                        assert(restricted_names(*e) =~= Set::empty());
                    }
                    Vec::new()
                },
            },
            _ => {
                proof {
                    assert(restricted_names(*e) =~= Set::empty());
                }
                Vec::new()
            },
        },
        _ => {
            proof {
                assert(restricted_names(*e) =~= Set::empty());
            }
            Vec::new()
        },
    }
}

/// Whether every `or` that narrowing looks into narrows something on its
/// left (see `narrowable`).
fn narrows_ok(e: &Expression) -> (r: bool)
    ensures
        r == narrowable(*e),
    decreases e,
{
    match &e.expr {
        Expr::Group { expression } => narrows_ok(expression),
        Expr::Binary { operator, left, right } => match operator {
            BinaryOperator::And => narrows_ok(left) && narrows_ok(right),
            BinaryOperator::Or => {
                if !narrows_ok(left) || !narrows_ok(right) {
                    return false;
                }
                let names = narrowed_names(left);
                proof {
                    if names@.len() == 0 {
                        assert(restricted_names(**left) =~= Set::empty());
                    } else {
                        assert(restricted_names(**left).contains(names@[0]@));
                    }
                }
                names.len() > 0
            },
            _ => true,
        },
        _ => true,
    }
}

fn check_expression(e: &Expression, room: usize) -> (r: bool)
    requires
        room <= 255,
    ensures
        r == expr_ok(*e, room as nat),
    decreases e, 1nat,
{
    match &e.expr {
        Expr::Assignment { expression, .. } => check_expression(expression, room),
        Expr::Binary { left, right, .. } => check_expression(left, room) && check_expression(right, room),
        Expr::Call { expression, arguments } => check_expression(expression, room)
            && check_expressions(arguments, room),
        Expr::Comment { expression, .. } => check_expression(expression, room),
        Expr::Dictionary { items } => check_entries(items, room),
        Expr::FormatString { expressions, .. } => check_expressions(expressions, room),
        Expr::Function { body, .. } => room >= 1 && check_statement(body, room - 1, true),
        Expr::Group { expression } => check_expression(expression, room),
        Expr::Index { expression, index } => check_expression(expression, room) && check_expression(
            index,
            room,
        ),
        Expr::IndexAssignment { expression, index, value, .. } => check_expression(expression, room)
            && check_expression(index, room) && check_expression(value, room),
        Expr::List { items } => check_expressions(items, room),
        Expr::Literal { .. } => true,
        Expr::ModuleAccess { .. } => true,
        Expr::Unary { expression, .. } => check_expression(expression, room),
        Expr::Variable { .. } => true,
    }
}

fn check_expressions(items: &Vec<Expression>, room: usize) -> (r: bool)
    requires
        room <= 255,
    ensures
        r == exprs_ok(items@, room as nat),
    decreases items, 0nat,
{
    let mut i: usize = 0;
    let mut all = true;
    while i < items.len()
        invariant
            room <= 255,
            i <= items@.len(),
            all == exprs_ok(items@.subrange(0, i as int), room as nat),
        decreases items@.len() - i,
    {
        assert(items@.subrange(0, i + 1).subrange(0, i as int) =~= items@.subrange(0, i as int));
        let c = check_expression(&items[i], room);
        all = all && c;
        i = i + 1;
    }
    assert(items@.subrange(0, items@.len() as int) =~= items@);
    all
}

fn check_entries(items: &Vec<(Expression, Expression)>, room: usize) -> (r: bool)
    requires
        room <= 255,
    ensures
        r == entries_ok(items@, room as nat),
    decreases items, 0nat,
{
    let mut i: usize = 0;
    let mut all = true;
    while i < items.len()
        invariant
            room <= 255,
            i <= items@.len(),
            all == entries_ok(items@.subrange(0, i as int), room as nat),
        decreases items@.len() - i,
    {
        assert(items@.subrange(0, i + 1).subrange(0, i as int) =~= items@.subrange(0, i as int));
        let entry = &items[i];
        let k = check_expression(&entry.0, room);
        let v = check_expression(&entry.1, room);
        all = all && k && v;
        i = i + 1;
    }
    assert(items@.subrange(0, items@.len() as int) =~= items@);
    all
}

fn check_statement(s: &Statement, room: usize, in_function: bool) -> (r: bool)
    requires
        room <= 255,
    ensures
        r == stmt_ok(*s, room as nat, in_function),
    decreases s, 1nat,
{
    match &s.stmt {
        Stmt::Block { body } => room >= 1 && check_statements(body, room - 1, in_function),
        Stmt::Declaration { expression, .. } => match expression {
            Some(value) => check_expression(value, room),
            None => true,
        },
        Stmt::Expression { expression } => check_expression(expression, room),
        Stmt::If { condition, then, otherwise } => {
            if !(check_expression(condition, room) && narrows_ok(condition) && room >= 1) {
                return false;
            }
            check_statement(then, room - 1, in_function) && match otherwise {
                Some(other) => check_statement(other, room - 1, in_function),
                None => true,
            }
        },
        Stmt::Import { .. } => false,
        Stmt::Return { expression } => match expression {
            Some(value) => in_function && check_expression(value, room),
            None => true,
        },
        Stmt::While { condition, body } => check_expression(condition, room) && narrows_ok(condition)
            && room >= 1 && check_statement(body, room - 1, in_function),
        Stmt::Comment { .. } => true,
    }
}

fn check_statements(body: &Vec<Statement>, room: usize, in_function: bool) -> (r: bool)
    requires
        room <= 255,
    ensures
        r == stmts_ok(body@, room as nat, in_function),
    decreases body, 0nat,
{
    let mut i: usize = 0;
    let mut all = true;
    while i < body.len()
        invariant
            room <= 255,
            i <= body@.len(),
            all == stmts_ok(body@.subrange(0, i as int), room as nat, in_function),
        decreases body@.len() - i,
    {
        assert(body@.subrange(0, i + 1).subrange(0, i as int) =~= body@.subrange(0, i as int));
        let c = check_statement(&body[i], room, in_function);
        all = all && c;
        i = i + 1;
    }
    assert(body@.subrange(0, body@.len() as int) =~= body@);
    all
}

/// Whether `typecheck` takes the program: no import, no `return` of a
/// value outside a function, no more than 255 scopes nested, and every
/// `or` that narrowing looks into narrows something on its left.
pub fn is_checkable(ast: &[Statement]) -> (r: bool)
    ensures
        r == (forall|i: int| 0 <= i < ast@.len() ==> stmt_ok(#[trigger] ast@[i], max_room(), false)),
{
    let mut i: usize = 0;
    while i < ast.len()
        invariant
            i <= ast@.len(),
            forall|k: int| 0 <= k < i ==> stmt_ok(#[trigger] ast@[k], max_room(), false),
        decreases ast@.len() - i,
    {
        if !check_statement(&ast[i], 255, false) {
            return false;
        }
        i = i + 1;
    }
    true
}

} // verus!
